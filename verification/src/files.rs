//! The in-memory file index: every entity of a volume, keyed by identity,
//! held in one sequence sorted by name and identity.

use crate::errors::ErrorKind;
use crate::file_entity::FileEntity;
use crate::file_entity::FileEntityView;
use crate::file_entity::FileId;
use crate::file_entity::FileType;
use crate::text::contains_bytes;
use crate::text::contains_lowered;
use crate::text::lower_bytes;
use crate::text::lower_vec;
use vstd::prelude::*;
use vstd::utf8::encode_utf8;

verus! {

/// The bytes that order and match an entity: the UTF-8 encoding of its
/// name.
pub open spec fn name_bytes(v: FileEntityView) -> Seq<u8> {
    encode_utf8(v.name)
}

/// Lexicographic order on byte sequences.
pub open spec fn bytes_lt(a: Seq<u8>, b: Seq<u8>) -> bool
    decreases a.len(),
{
    if b.len() == 0 {
        false
    } else if a.len() == 0 {
        true
    } else if a[0] < b[0] {
        true
    } else if a[0] > b[0] {
        false
    } else {
        bytes_lt(a.skip(1), b.skip(1))
    }
}

/// No byte sequence is below itself.
pub proof fn lemma_bytes_lt_irrefl(a: Seq<u8>)
    ensures
        !bytes_lt(a, a),
    decreases a.len(),
{
    if a.len() > 0 {
        lemma_bytes_lt_irrefl(a.skip(1));
    }
}

/// Two byte sequences are ordered one way or the other, or equal.
pub proof fn lemma_bytes_lt_total(a: Seq<u8>, b: Seq<u8>)
    ensures
        bytes_lt(a, b) || bytes_lt(b, a) || a == b,
    decreases a.len(),
{
    if a.len() == 0 && b.len() == 0 {
        assert(a =~= b);
    } else if a.len() > 0 && b.len() > 0 && a[0] == b[0] {
        lemma_bytes_lt_total(a.skip(1), b.skip(1));
        if !bytes_lt(a, b) && !bytes_lt(b, a) {
            assert(a.skip(1) == b.skip(1));
            assert(a =~= b) by {
                assert(a.len() == b.len());
                assert(forall|i: int|
                    1 <= i < a.len() ==> a[i] == a.skip(1)[i - 1] && b[i] == b.skip(1)[i - 1]);
            }
        }
    }
}

/// Lexicographic order is transitive.
pub proof fn lemma_bytes_lt_trans(a: Seq<u8>, b: Seq<u8>, c: Seq<u8>)
    requires
        bytes_lt(a, b),
        bytes_lt(b, c),
    ensures
        bytes_lt(a, c),
    decreases a.len(),
{
    if a.len() > 0 && c.len() > 0 && a[0] == c[0] {
        assert(b.len() > 0);
        lemma_bytes_lt_trans(a.skip(1), b.skip(1), c.skip(1));
    }
}

/// Order on identities: by record number, directories before files.
pub open spec fn id_lt(a: FileId, b: FileId) -> bool {
    a.id < b.id || (a.id == b.id && a.f_type is DIRECTORY && b.f_type is FILE)
}

/// The total order of the index: by name bytes, then by identity.
pub open spec fn ent_lt(a: FileEntityView, b: FileEntityView) -> bool {
    bytes_lt(name_bytes(a), name_bytes(b)) || (name_bytes(a) == name_bytes(b) && id_lt(
        a.id,
        b.id,
    ))
}

/// The index order is transitive.
pub proof fn lemma_ent_lt_trans(a: FileEntityView, b: FileEntityView, c: FileEntityView)
    requires
        ent_lt(a, b),
        ent_lt(b, c),
    ensures
        ent_lt(a, c),
{
    if bytes_lt(name_bytes(a), name_bytes(b)) && bytes_lt(name_bytes(b), name_bytes(c)) {
        lemma_bytes_lt_trans(name_bytes(a), name_bytes(b), name_bytes(c));
    }
}

/// Two entities are ordered one way or the other, unless they share both
/// name bytes and identity.
pub proof fn lemma_ent_lt_total(a: FileEntityView, b: FileEntityView)
    ensures
        ent_lt(a, b) || ent_lt(b, a) || (name_bytes(a) == name_bytes(b) && a.id == b.id),
{
    lemma_bytes_lt_total(name_bytes(a), name_bytes(b));
}

/// An entity is not below itself.
pub proof fn lemma_ent_lt_irrefl(a: FileEntityView)
    ensures
        !ent_lt(a, a),
{
    lemma_bytes_lt_irrefl(name_bytes(a));
}

/// Whether a sequence of entities is strictly sorted by the index order.
pub open spec fn sorted(s: Seq<FileEntityView>) -> bool {
    forall|i: int, j: int| 0 <= i < j < s.len() ==> ent_lt(#[trigger] s[i], #[trigger] s[j])
}

/// Whether no identity occurs twice.
pub open spec fn unique_ids(s: Seq<FileEntityView>) -> bool {
    forall|i: int, j: int|
        0 <= i < j < s.len() ==> (#[trigger] s[i]).id != (#[trigger] s[j]).id
}

/// The invariant of the index: strictly sorted, one entry per identity.
pub open spec fn wf_seq(s: Seq<FileEntityView>) -> bool {
    sorted(s) && unique_ids(s)
}

/// Every element of a filtered sequence is an element of the original.
pub proof fn lemma_filter_membership<A>(s: Seq<A>, pred: spec_fn(A) -> bool)
    ensures
        forall|i: int|
            0 <= i < s.filter(pred).len() ==> s.contains(#[trigger] s.filter(pred)[i]),
    decreases s.len(),
{
    reveal(Seq::filter);
    if s.len() > 0 {
        let dl = s.drop_last();
        lemma_filter_membership(dl, pred);
        assert forall|i: int| 0 <= i < s.filter(pred).len() implies s.contains(
            #[trigger] s.filter(pred)[i],
        ) by {
            let f = s.filter(pred);
            if pred(s.last()) && i == f.len() - 1 {
                assert(s[s.len() - 1] == f[i]);
            } else {
                assert(f[i] == dl.filter(pred)[i]);
                assert(dl.contains(f[i]));
                let j = choose|j: int| 0 <= j < dl.len() && dl[j] == f[i];
                assert(s[j] == f[i]);
            }
        }
    }
}

/// Filtering keeps the sort order.
pub proof fn lemma_filter_sorted(s: Seq<FileEntityView>, pred: spec_fn(FileEntityView) -> bool)
    requires
        sorted(s),
    ensures
        sorted(s.filter(pred)),
    decreases s.len(),
{
    reveal(Seq::filter);
    if s.len() > 0 {
        let dl = s.drop_last();
        assert(sorted(dl)) by {
            assert(forall|i: int| 0 <= i < dl.len() ==> dl[i] == s[i]);
        }
        lemma_filter_sorted(dl, pred);
        lemma_filter_membership(dl, pred);
        if pred(s.last()) {
            let f = s.filter(pred);
            assert(f == dl.filter(pred).push(s.last()));
            assert forall|i: int, j: int| 0 <= i < j < f.len() implies ent_lt(f[i], f[j]) by {
                if j < f.len() - 1 {
                    assert(f[i] == dl.filter(pred)[i] && f[j] == dl.filter(pred)[j]);
                } else {
                    assert(f[i] == dl.filter(pred)[i]);
                    assert(dl.contains(f[i]));
                    let k = choose|k: int| 0 <= k < dl.len() && dl[k] == f[i];
                    assert(ent_lt(s[k], s[s.len() - 1]));
                }
            }
        }
    }
}

/// Filtering keeps identities unique.
pub proof fn lemma_filter_unique(s: Seq<FileEntityView>, pred: spec_fn(FileEntityView) -> bool)
    requires
        unique_ids(s),
        sorted(s),
    ensures
        unique_ids(s.filter(pred)),
    decreases s.len(),
{
    reveal(Seq::filter);
    if s.len() > 0 {
        let dl = s.drop_last();
        assert(unique_ids(dl) && sorted(dl)) by {
            assert(forall|i: int| 0 <= i < dl.len() ==> dl[i] == s[i]);
        }
        lemma_filter_unique(dl, pred);
        lemma_filter_membership(dl, pred);
        if pred(s.last()) {
            let f = s.filter(pred);
            assert(f == dl.filter(pred).push(s.last()));
            assert forall|i: int, j: int| 0 <= i < j < f.len() implies f[i].id != f[j].id by {
                if j < f.len() - 1 {
                    assert(f[i] == dl.filter(pred)[i] && f[j] == dl.filter(pred)[j]);
                } else {
                    assert(f[i] == dl.filter(pred)[i]);
                    assert(dl.contains(f[i]));
                    let k = choose|k: int| 0 <= k < dl.len() && dl[k] == f[i];
                    assert(s[k].id != s[s.len() - 1].id);
                }
            }
        }
    }
}

/// The index with every entry of identity `id` taken out.
pub open spec fn remove_id(s: Seq<FileEntityView>, id: FileId) -> Seq<FileEntityView> {
    s.filter(|e: FileEntityView| e.id != id)
}

/// The index with `e` inserted at its place in the sort order.
pub open spec fn insert_sorted(s: Seq<FileEntityView>, e: FileEntityView) -> Seq<FileEntityView>
    decreases s.len(),
{
    if s.len() == 0 {
        seq![e]
    } else if ent_lt(e, s[0]) {
        seq![e] + s
    } else {
        seq![s[0]] + insert_sorted(s.skip(1), e)
    }
}

/// The index after a point upsert: any old entry of the same identity is
/// replaced, and the entity stands at its place in the sort order.
pub open spec fn upsert_seq(s: Seq<FileEntityView>, e: FileEntityView) -> Seq<FileEntityView> {
    insert_sorted(remove_id(s, e.id), e)
}

/// Every element of an insertion is the inserted entity or an element of
/// the original.
pub proof fn lemma_insert_sorted_membership(s: Seq<FileEntityView>, e: FileEntityView)
    ensures
        insert_sorted(s, e).len() == s.len() + 1,
        forall|i: int|
            0 <= i < insert_sorted(s, e).len() ==> (#[trigger] insert_sorted(s, e)[i] == e
                || s.contains(insert_sorted(s, e)[i])),
    decreases s.len(),
{
    let r = insert_sorted(s, e);
    if s.len() == 0 {
    } else if ent_lt(e, s[0]) {
        assert(forall|i: int| 1 <= i < r.len() ==> r[i] == s[i - 1]);
    } else {
        lemma_insert_sorted_membership(s.skip(1), e);
        assert forall|i: int| 0 <= i < r.len() implies (r[i] == e || s.contains(r[i])) by {
            if i == 0 {
                assert(r[0] == s[0]);
            } else {
                let t = insert_sorted(s.skip(1), e);
                assert(r[i] == t[i - 1]);
                if t[i - 1] == e {
                } else {
                    assert(s.skip(1).contains(t[i - 1]));
                    let k = choose|k: int| 0 <= k < s.skip(1).len() && s.skip(1)[k] == t[i - 1];
                    assert(s[k + 1] == t[i - 1]);
                }
            }
        }
    }
}

/// Inserting an entity whose identity is fresh keeps the invariant.
pub proof fn lemma_insert_sorted_wf(s: Seq<FileEntityView>, e: FileEntityView)
    requires
        wf_seq(s),
        forall|i: int| 0 <= i < s.len() ==> (#[trigger] s[i]).id != e.id,
    ensures
        wf_seq(insert_sorted(s, e)),
    decreases s.len(),
{
    let r = insert_sorted(s, e);
    if s.len() == 0 {
    } else if ent_lt(e, s[0]) {
        assert forall|i: int, j: int| 0 <= i < j < r.len() implies ent_lt(r[i], r[j])
            && r[i].id != r[j].id by {
            if i == 0 {
                assert(r[j] == s[j - 1]);
                if j > 1 {
                    lemma_ent_lt_trans(e, s[0], s[j - 1]);
                }
            } else {
                assert(r[i] == s[i - 1] && r[j] == s[j - 1]);
            }
        }
    } else {
        lemma_ent_lt_total(e, s[0]);
        assert(ent_lt(s[0], e));
        let tail = s.skip(1);
        assert(wf_seq(tail) && (forall|i: int|
            0 <= i < tail.len() ==> (#[trigger] tail[i]).id != e.id)) by {
            assert(forall|i: int| 0 <= i < tail.len() ==> tail[i] == s[i + 1]);
        }
        lemma_insert_sorted_wf(tail, e);
        lemma_insert_sorted_membership(tail, e);
        let t = insert_sorted(tail, e);
        assert forall|i: int, j: int| 0 <= i < j < r.len() implies ent_lt(r[i], r[j])
            && r[i].id != r[j].id by {
            if i == 0 {
                assert(r[j] == t[j - 1]);
                if t[j - 1] == e {
                    assert(ent_lt(r[0], r[j]));
                    assert(r[0].id != r[j].id);
                } else {
                    assert(tail.contains(t[j - 1]));
                    let k = choose|k: int| 0 <= k < tail.len() && tail[k] == t[j - 1];
                    assert(tail[k] == s[k + 1]);
                    assert(ent_lt(s[0], s[k + 1]));
                    assert(s[0].id != s[k + 1].id);
                }
            } else {
                assert(r[i] == t[i - 1] && r[j] == t[j - 1]);
            }
        }
    }
}

/// The index as a finite map from identity to entity.
pub open spec fn as_map(s: Seq<FileEntityView>) -> Map<FileId, FileEntityView>
    decreases s.len(),
{
    if s.len() == 0 {
        Map::empty()
    } else {
        as_map(s.skip(1)).insert(s[0].id, s[0])
    }
}

/// What the map of an index holds: exactly the entities of the sequence,
/// keyed by their identities.
pub proof fn lemma_as_map_props(s: Seq<FileEntityView>)
    requires
        unique_ids(s),
    ensures
        forall|i: int|
            0 <= i < s.len() ==> as_map(s).contains_key((#[trigger] s[i]).id) && as_map(s)[s[i].id]
                == s[i],
        forall|k: FileId|
            as_map(s).contains_key(k) ==> exists|i: int| 0 <= i < s.len() && (#[trigger] s[i]).id
                == k,
    decreases s.len(),
{
    if s.len() > 0 {
        let tail = s.skip(1);
        assert(unique_ids(tail)) by {
            assert(forall|i: int| 0 <= i < tail.len() ==> tail[i] == s[i + 1]);
        }
        lemma_as_map_props(tail);
        assert forall|i: int| 0 <= i < s.len() implies as_map(s).contains_key(
            (#[trigger] s[i]).id,
        ) && as_map(s)[s[i].id] == s[i] by {
            if i > 0 {
                assert(tail[i - 1] == s[i]);
                assert(as_map(tail).contains_key(s[i].id) && as_map(tail)[s[i].id] == s[i]);
                assert(s[i].id != s[0].id);
            }
        }
        assert forall|k: FileId| as_map(s).contains_key(k) implies exists|i: int|
            0 <= i < s.len() && (#[trigger] s[i]).id == k by {
            if k != s[0].id {
                assert(as_map(tail).contains_key(k));
                let i = choose|i: int| 0 <= i < tail.len() && (#[trigger] tail[i]).id == k;
                assert(s[i + 1].id == k);
            } else {
                assert(s[0].id == k);
            }
        }
    }
}

/// Taking an identity out of the index takes it out of the map.
pub proof fn lemma_as_map_remove(s: Seq<FileEntityView>, id: FileId)
    ensures
        as_map(remove_id(s, id)) == as_map(s).remove(id),
    decreases s.len(),
{
    reveal(Seq::filter);
    let pred = |e: FileEntityView| e.id != id;
    if s.len() == 0 {
        assert(s.filter(pred) == Seq::<FileEntityView>::empty());
        assert(as_map(remove_id(s, id)) =~= as_map(s).remove(id));
    } else {
        let tail = s.skip(1);
        lemma_as_map_remove(tail, id);
        assert(s =~= seq![s[0]] + tail);
        Seq::filter_distributes_over_add(seq![s[0]], tail, pred);
        assert(seq![s[0]].drop_last() =~= Seq::<FileEntityView>::empty());
        assert(Seq::<FileEntityView>::empty().filter(pred) =~= Seq::<FileEntityView>::empty());
        assert(seq![s[0]].last() == s[0]);
        if s[0].id == id {
            assert(seq![s[0]].filter(pred) =~= Seq::<FileEntityView>::empty());
            assert(s.filter(pred) =~= tail.filter(pred));
            assert(as_map(s).remove(id) =~= as_map(tail).remove(id));
        } else {
            assert(seq![s[0]].filter(pred) =~= seq![s[0]]);
            let f = s.filter(pred);
            assert(f =~= seq![s[0]] + tail.filter(pred));
            assert(f.len() > 0 && f[0] == s[0]);
            assert(f.skip(1) =~= tail.filter(pred));
            assert(as_map(f) == as_map(tail.filter(pred)).insert(s[0].id, s[0]));
            assert(as_map(s).remove(id) =~= as_map(tail).remove(id).insert(s[0].id, s[0]));
        }
    }
}

/// Inserting a fresh identity into the index inserts it into the map.
pub proof fn lemma_as_map_insert(s: Seq<FileEntityView>, e: FileEntityView)
    requires
        forall|i: int| 0 <= i < s.len() ==> (#[trigger] s[i]).id != e.id,
    ensures
        as_map(insert_sorted(s, e)) == as_map(s).insert(e.id, e),
    decreases s.len(),
{
    let r = insert_sorted(s, e);
    if s.len() == 0 {
        assert(r =~= seq![e]);
        assert(r.skip(1) =~= Seq::<FileEntityView>::empty());
        assert(as_map(Seq::<FileEntityView>::empty()) == Map::<FileId, FileEntityView>::empty());
        assert(r[0] == e);
        assert(as_map(r) == as_map(r.skip(1)).insert(r[0].id, r[0]));
        assert(as_map(s) == Map::<FileId, FileEntityView>::empty());
        assert(as_map(r) == as_map(s).insert(e.id, e));
    } else if ent_lt(e, s[0]) {
        assert(r == seq![e] + s);
        assert(r[0] == e);
        assert(r.skip(1) =~= s);
        assert(as_map(r) == as_map(r.skip(1)).insert(r[0].id, r[0]));
        assert(as_map(r.skip(1)) == as_map(s));
        assert(as_map(r) == as_map(s).insert(e.id, e));
    } else {
        let tail = s.skip(1);
        assert(forall|i: int| 0 <= i < tail.len() ==> (#[trigger] tail[i]).id != e.id) by {
            assert(forall|i: int| 0 <= i < tail.len() ==> tail[i] == s[i + 1]);
        }
        lemma_as_map_insert(tail, e);
        let t = insert_sorted(tail, e);
        assert(r == seq![s[0]] + t);
        assert(r[0] == s[0]);
        assert(r.skip(1) =~= t);
        assert(as_map(r) == as_map(t).insert(s[0].id, s[0]));
        assert(as_map(t) == as_map(tail).insert(e.id, e));
        assert(s[0].id != e.id);
        assert(as_map(tail).insert(e.id, e).insert(s[0].id, s[0]) =~= as_map(tail).insert(
            s[0].id,
            s[0],
        ).insert(e.id, e));
        assert(as_map(s) == as_map(tail).insert(s[0].id, s[0]));
        assert(as_map(r) == as_map(tail).insert(e.id, e).insert(s[0].id, s[0]));
        assert(as_map(r) == as_map(tail).insert(s[0].id, s[0]).insert(e.id, e));
        assert(as_map(r) == as_map(s).insert(e.id, e));
    }
}

/// A point upsert keeps the invariant and updates the map at one key.
pub proof fn lemma_upsert_seq(s: Seq<FileEntityView>, e: FileEntityView)
    requires
        wf_seq(s),
    ensures
        wf_seq(upsert_seq(s, e)),
        as_map(upsert_seq(s, e)) == as_map(s).insert(e.id, e),
{
    let pred = |x: FileEntityView| x.id != e.id;
    let rem = remove_id(s, e.id);
    lemma_filter_sorted(s, pred);
    lemma_filter_unique(s, pred);
    lemma_filter_membership(s, pred);
    assert(forall|i: int| 0 <= i < rem.len() ==> (#[trigger] rem[i]).id != e.id) by {
        Seq::filter_lemma(s, pred);
    }
    lemma_insert_sorted_wf(rem, e);
    lemma_as_map_insert(rem, e);
    lemma_as_map_remove(s, e.id);
    assert(as_map(s).remove(e.id).insert(e.id, e) =~= as_map(s).insert(e.id, e));
}

/// A point removal keeps the invariant and removes one key from the map.
pub proof fn lemma_remove_seq(s: Seq<FileEntityView>, id: FileId)
    requires
        wf_seq(s),
    ensures
        wf_seq(remove_id(s, id)),
        as_map(remove_id(s, id)) == as_map(s).remove(id),
{
    let pred = |x: FileEntityView| x.id != id;
    lemma_filter_sorted(s, pred);
    lemma_filter_unique(s, pred);
    lemma_as_map_remove(s, id);
}

/// Repeating the same upsert is a no-op change.
pub proof fn lemma_upsert_idempotent(s: Seq<FileEntityView>, e: FileEntityView)
    requires
        wf_seq(s),
    ensures
        upsert_seq(upsert_seq(s, e), e) == upsert_seq(s, e),
{
    lemma_upsert_seq(s, e);
    lemma_upsert_seq(upsert_seq(s, e), e);
    assert(as_map(s).insert(e.id, e).insert(e.id, e) =~= as_map(s).insert(e.id, e));
    lemma_canonical(upsert_seq(upsert_seq(s, e), e), upsert_seq(s, e));
}

/// Removing an absent identity, or removing twice, is a no-op change.
pub proof fn lemma_remove_idempotent(s: Seq<FileEntityView>, id: FileId)
    requires
        wf_seq(s),
    ensures
        remove_id(remove_id(s, id), id) == remove_id(s, id),
{
    lemma_remove_seq(s, id);
    lemma_remove_seq(remove_id(s, id), id);
    assert(as_map(s).remove(id).remove(id) =~= as_map(s).remove(id));
    lemma_canonical(remove_id(remove_id(s, id), id), remove_id(s, id));
}

/// A well-formed index is determined by its map: the sorted sequence is
/// canonical.
pub proof fn lemma_canonical(s1: Seq<FileEntityView>, s2: Seq<FileEntityView>)
    requires
        wf_seq(s1),
        wf_seq(s2),
        as_map(s1) == as_map(s2),
    ensures
        s1 == s2,
    decreases s1.len(),
{
    lemma_as_map_props(s1);
    lemma_as_map_props(s2);
    if s1.len() == 0 {
        if s2.len() > 0 {
            assert(as_map(s2).contains_key(s2[0].id));
            assert(as_map(s1).dom() =~= Set::<FileId>::empty());
            assert(false);
        }
        assert(s1 =~= s2);
    } else {
        assert(s2.len() > 0) by {
            if s2.len() == 0 {
                assert(as_map(s2).dom() =~= Set::<FileId>::empty());
                assert(as_map(s1).contains_key(s1[0].id));
                assert(false);
            }
        }
        // the two heads are each other's minimum, hence equal
        assert(s1[0] == s2[0]) by {
            if s1[0] != s2[0] {
                assert(as_map(s2).contains_key(s1[0].id) && as_map(s2)[s1[0].id] == s1[0]);
                let j = choose|j: int| 0 <= j < s2.len() && (#[trigger] s2[j]).id == s1[0].id;
                assert(s2[j] == s1[0]);
                assert(j != 0);
                assert(ent_lt(s2[0], s2[j]));
                assert(as_map(s1).contains_key(s2[0].id) && as_map(s1)[s2[0].id] == s2[0]);
                let i = choose|i: int| 0 <= i < s1.len() && (#[trigger] s1[i]).id == s2[0].id;
                assert(s1[i] == s2[0]);
                assert(i != 0) by {
                    if i == 0 {
                        assert(s1[0] == s2[0]);
                    }
                }
                assert(ent_lt(s1[0], s1[i]));
                lemma_ent_lt_trans(s1[0], s2[0], s1[0]);
                lemma_ent_lt_irrefl(s1[0]);
                assert(false);
            }
        }
        let t1 = s1.skip(1);
        let t2 = s2.skip(1);
        assert(wf_seq(t1) && wf_seq(t2)) by {
            assert(forall|i: int| 0 <= i < t1.len() ==> t1[i] == s1[i + 1]);
            assert(forall|i: int| 0 <= i < t2.len() ==> t2[i] == s2[i + 1]);
        }
        assert(unique_ids(t1) && unique_ids(t2));
        lemma_as_map_props(t1);
        lemma_as_map_props(t2);
        assert(as_map(t1) == as_map(t2)) by {
            assert(forall|i: int| 0 <= i < t1.len() ==> t1[i] == s1[i + 1]);
            assert(forall|i: int| 0 <= i < t2.len() ==> t2[i] == s2[i + 1]);
            assert(!as_map(t1).contains_key(s1[0].id)) by {
                if as_map(t1).contains_key(s1[0].id) {
                    let i = choose|i: int|
                        0 <= i < t1.len() && (#[trigger] t1[i]).id == s1[0].id;
                    assert(s1[i + 1].id == s1[0].id);
                    assert(false);
                }
            }
            assert(!as_map(t2).contains_key(s2[0].id)) by {
                if as_map(t2).contains_key(s2[0].id) {
                    let i = choose|i: int|
                        0 <= i < t2.len() && (#[trigger] t2[i]).id == s2[0].id;
                    assert(s2[i + 1].id == s2[0].id);
                    assert(false);
                }
            }
            assert(as_map(t1) =~= as_map(s1).remove(s1[0].id));
            assert(as_map(t2) =~= as_map(s2).remove(s2[0].id));
        }
        lemma_canonical(t1, t2);
        assert(s1 =~= s2) by {
            assert(forall|i: int| 1 <= i < s1.len() ==> s1[i] == t1[i - 1]);
            assert(forall|i: int| 1 <= i < s2.len() ==> s2[i] == t2[i - 1]);
        }
    }
}

/// Every index position holds, no position fails, the given predicate:
/// filtering changes nothing.
pub proof fn lemma_filter_all_true<A>(s: Seq<A>, pred: spec_fn(A) -> bool)
    requires
        forall|i: int| 0 <= i < s.len() ==> pred(#[trigger] s[i]),
    ensures
        s.filter(pred) == s,
    decreases s.len(),
{
    reveal(Seq::filter);
    if s.len() > 0 {
        let dl = s.drop_last();
        assert(forall|i: int| 0 <= i < dl.len() ==> pred(#[trigger] dl[i])) by {
            assert(forall|i: int| 0 <= i < dl.len() ==> dl[i] == s[i]);
        }
        lemma_filter_all_true(dl, pred);
        assert(s.filter(pred) =~= s);
    }
}

/// Removing the one position that holds an identity is the same as
/// filtering that identity out.
pub proof fn lemma_remove_at_is_filter(s: Seq<FileEntityView>, i: int, id: FileId)
    requires
        0 <= i < s.len(),
        s[i].id == id,
        forall|j: int| 0 <= j < s.len() && j != i ==> (#[trigger] s[j]).id != id,
    ensures
        remove_id(s, id) == s.remove(i),
{
    reveal(Seq::filter);
    let pred = |e: FileEntityView| e.id != id;
    let pre = s.subrange(0, i);
    let mid = seq![s[i]];
    let post = s.subrange(i + 1, s.len() as int);
    assert(s =~= (pre + mid) + post);
    Seq::filter_distributes_over_add(pre + mid, post, pred);
    Seq::filter_distributes_over_add(pre, mid, pred);
    assert(forall|j: int| 0 <= j < pre.len() ==> pred(#[trigger] pre[j])) by {
        assert(forall|j: int| 0 <= j < pre.len() ==> pre[j] == s[j]);
    }
    assert(forall|j: int| 0 <= j < post.len() ==> pred(#[trigger] post[j])) by {
        assert(forall|j: int| 0 <= j < post.len() ==> post[j] == s[j + i + 1]);
    }
    lemma_filter_all_true(pre, pred);
    lemma_filter_all_true(post, pred);
    assert(mid.drop_last() =~= Seq::<FileEntityView>::empty());
    assert(Seq::<FileEntityView>::empty().filter(pred) =~= Seq::<FileEntityView>::empty());
    assert(mid.last() == s[i]);
    assert(mid.filter(pred) =~= Seq::<FileEntityView>::empty());
    assert(s.filter(pred) =~= pre + post);
    assert(s.remove(i) =~= pre + post);
}

/// Inserting at the first position whose entity is above `e` is the same
/// as the sorted insertion.
pub proof fn lemma_insert_at_is_insert_sorted(s: Seq<FileEntityView>, e: FileEntityView, j: int)
    requires
        0 <= j <= s.len(),
        forall|k: int| 0 <= k < j ==> !ent_lt(e, #[trigger] s[k]),
        j < s.len() ==> ent_lt(e, s[j]),
    ensures
        insert_sorted(s, e) == s.insert(j, e),
    decreases s.len(),
{
    if s.len() == 0 {
        assert(insert_sorted(s, e) =~= s.insert(0, e));
    } else if ent_lt(e, s[0]) {
        assert(j == 0);
        assert(insert_sorted(s, e) =~= s.insert(0, e));
    } else {
        assert(j >= 1);
        let tail = s.skip(1);
        assert(forall|k: int| 0 <= k < j - 1 ==> !ent_lt(e, #[trigger] tail[k])) by {
            assert(forall|k: int| 0 <= k < tail.len() ==> tail[k] == s[k + 1]);
        }
        assert(j - 1 < tail.len() ==> ent_lt(e, tail[j - 1]));
        lemma_insert_at_is_insert_sorted(tail, e, j - 1);
        assert(insert_sorted(s, e) == seq![s[0]] + tail.insert(j - 1, e));
        assert(seq![s[0]] + tail.insert(j - 1, e) =~= s.insert(j, e));
    }
}

/// The views of a sequence of entities.
pub open spec fn views_of(es: Seq<FileEntity>) -> Seq<FileEntityView> {
    es.map_values(|e: FileEntity| e@)
}

/// The index after upserting a sequence of entities, first to last.
pub open spec fn apply_upserts(s: Seq<FileEntityView>, es: Seq<FileEntityView>) -> Seq<
    FileEntityView,
>
    decreases es.len(),
{
    if es.len() == 0 {
        s
    } else {
        apply_upserts(upsert_seq(s, es[0]), es.skip(1))
    }
}

/// Whether an entity's name matches a pattern: the lower-cased pattern
/// bytes occur in the lower-cased name bytes, over ASCII case alone.
pub open spec fn matches_view(v: FileEntityView, pattern: Seq<char>) -> bool {
    contains_bytes(lower_bytes(name_bytes(v)), lower_bytes(encode_utf8(pattern)))
}

/// A keyset cursor into search results: the name and identity of the last
/// entity of the page already delivered.
#[derive(Debug)]
pub struct ResumeKey {
    pub name: String,
    pub id: FileId,
}

/// Mathematical image of a `ResumeKey`.
pub struct ResumeKeyView {
    pub name: Seq<char>,
    pub id: FileId,
}

impl View for ResumeKey {
    type V = ResumeKeyView;

    open spec fn view(&self) -> ResumeKeyView {
        ResumeKeyView { name: self.name@, id: self.id }
    }
}

/// The image of an optional borrowed resume key.
pub open spec fn rk_view(r: Option<&ResumeKey>) -> Option<ResumeKeyView> {
    match r {
        None => None,
        Some(k) => Some(k@),
    }
}

/// Whether an entity stands strictly after a resume key in the index
/// order; with no key, every entity qualifies.
pub open spec fn after_key_view(v: FileEntityView, r: Option<ResumeKeyView>) -> bool {
    match r {
        None => true,
        Some(k) => bytes_lt(encode_utf8(k.name), name_bytes(v)) || (encode_utf8(k.name)
            == name_bytes(v) && id_lt(k.id, v.id)),
    }
}

/// The selection of one search: matches the pattern and stands after the
/// resume key.
pub open spec fn search_pred(pattern: Seq<char>, r: Option<ResumeKeyView>) -> spec_fn(
    FileEntityView,
) -> bool {
    |v: FileEntityView| matches_view(v, pattern) && after_key_view(v, r)
}

/// The first `n` elements of a sequence, or all of it where it is
/// shorter.
pub open spec fn clip_page(s: Seq<FileEntityView>, n: int) -> Seq<FileEntityView> {
    if n <= s.len() {
        s.take(n)
    } else {
        s
    }
}

/// One page of search results: the matching entities after the resume
/// key, in index order, clipped to the page size.
pub open spec fn page_of(
    s: Seq<FileEntityView>,
    pattern: Seq<char>,
    r: Option<ResumeKeyView>,
    n: int,
) -> Seq<FileEntityView> {
    clip_page(s.filter(search_pred(pattern, r)), n)
}

/// The images of a sequence of names.
pub open spec fn names_of(v: Seq<String>) -> Seq<Seq<char>> {
    v.map_values(|s: String| s@)
}

/// The path of an identity: the names from an ancestor down to the
/// entity, built by walking parent links.  The walk fails with
/// `BrokenChain` on a missing identity, a missing ancestor, or when
/// `fuel` steps did not reach the root, which defends against accidental
/// parent cycles.  An entity that is its own parent is the root; its name
/// is not part of any path.
pub open spec fn path_spec(s: Seq<FileEntityView>, id: FileId, fuel: nat) -> Result<
    Seq<Seq<char>>,
    ErrorKind,
>
    decreases fuel,
{
    if !as_map(s).contains_key(id) {
        Err(ErrorKind::BrokenChain)
    } else {
        let e = as_map(s)[id];
        if e.parent_id == id {
            Ok(Seq::empty())
        } else if fuel == 0 {
            Err(ErrorKind::BrokenChain)
        } else {
            match path_spec(s, e.parent_id, (fuel - 1) as nat) {
                Ok(p) => Ok(p.push(e.name)),
                Err(er) => Err(er),
            }
        }
    }
}

/// Compares two byte slices in lexicographic order.
fn bytes_less(a: &[u8], b: &[u8]) -> (r: bool)
    ensures
        r == bytes_lt(a@, b@),
{
    let la: usize = a.len();
    let lb: usize = b.len();
    let mut i: usize = 0;
    proof {
        assert(a@.skip(0) =~= a@);
        assert(b@.skip(0) =~= b@);
    }
    while i < la && i < lb
        invariant
            i <= la,
            i <= lb,
            la == a@.len(),
            lb == b@.len(),
            bytes_lt(a@, b@) == bytes_lt(a@.skip(i as int), b@.skip(i as int)),
        decreases la - i,
    {
        let ghost sa = a@.skip(i as int);
        let ghost sb = b@.skip(i as int);
        proof {
            assert(sa[0] == a@[i as int]);
            assert(sb[0] == b@[i as int]);
        }
        if a[i] < b[i] {
            return true;
        }
        if a[i] > b[i] {
            return false;
        }
        proof {
            assert(sa.skip(1) =~= a@.skip(i as int + 1));
            assert(sb.skip(1) =~= b@.skip(i as int + 1));
        }
        i = i + 1;
    }
    la < lb
}

/// Compares two identities in the index order.
fn id_less(a: FileId, b: FileId) -> (r: bool)
    ensures
        r == id_lt(a, b),
{
    if a.id() < b.id() {
        true
    } else if a.id() == b.id() {
        match (a.f_type(), b.f_type()) {
            (FileType::DIRECTORY, FileType::FILE) => true,
            _ => false,
        }
    } else {
        false
    }
}

/// Compares two entities in the index order: by name bytes, then by
/// identity.
fn ent_less(a: &FileEntity, b: &FileEntity) -> (r: bool)
    ensures
        r == ent_lt(a@, b@),
{
    let an = a.name().as_bytes();
    let bn = b.name().as_bytes();
    if bytes_less(an, bn) {
        true
    } else if bytes_less(bn, an) {
        false
    } else {
        proof {
            lemma_bytes_lt_total(an@, bn@);
        }
        id_less(a.id(), b.id())
    }
}

/// The in-memory file index.  Entities are held sorted by name and
/// identity, one entry per identity.
pub struct Files {
    entries: Vec<FileEntity>,
}

impl View for Files {
    type V = Seq<FileEntityView>;

    closed spec fn view(&self) -> Seq<FileEntityView> {
        views_of(self.entries@)
    }
}

impl Files {
    /// The invariant of the index.
    pub open spec fn wf(self) -> bool {
        wf_seq(self@)
    }

    /// An empty index with room for `capacity` entities.
    pub fn new(capacity: usize) -> (r: Files)
        ensures
            r@ == Seq::<FileEntityView>::empty(),
            r.wf(),
    {
        let files = Files { entries: Vec::with_capacity(capacity) };
        proof {
            assert(files@ =~= Seq::<FileEntityView>::empty());
        }
        files
    }

    /// The position holding an identity, if any.
    fn position_of_id(&self, id: FileId) -> (r: Option<usize>)
        ensures
            match r {
                Some(i) => i < self@.len() && self@[i as int].id == id,
                None => forall|i: int| 0 <= i < self@.len() ==> (#[trigger] self@[i]).id != id,
            },
    {
        let n: usize = self.entries.len();
        let mut i: usize = 0;
        while i < n
            invariant
                n == self.entries@.len(),
                self@.len() == n,
                i <= n,
                forall|j: int| 0 <= j < i ==> (#[trigger] self@[j]).id != id,
            decreases n - i,
        {
            if self.entries[i].id() == id {
                return Some(i);
            }
            i = i + 1;
        }
        None
    }

    /// The first position whose entity stands above `e` in the index
    /// order: the place where `e` belongs.
    fn insertion_point(&self, e: &FileEntity) -> (r: usize)
        ensures
            r <= self@.len(),
            forall|k: int| 0 <= k < r ==> !ent_lt(e@, #[trigger] self@[k]),
            r < self@.len() ==> ent_lt(e@, self@[r as int]),
    {
        let n: usize = self.entries.len();
        let mut j: usize = 0;
        while j < n && !ent_less(e, &self.entries[j])
            invariant
                n == self.entries@.len(),
                self@.len() == n,
                j <= n,
                forall|k: int| 0 <= k < j ==> !ent_lt(e@, #[trigger] self@[k]),
            decreases n - j,
        {
            j = j + 1;
        }
        j
    }

    /// Puts an entity into the index: any old entry of the same identity
    /// is replaced.  Upserting the same entity again changes nothing.
    pub fn upsert(&mut self, e: FileEntity)
        requires
            old(self).wf(),
        ensures
            final(self).wf(),
            final(self)@ == upsert_seq(old(self)@, e@),
    {
        let ghost s0 = self@;
        proof {
            lemma_upsert_seq(s0, e@);
        }
        let id = e.id();
        match self.position_of_id(id) {
            Some(i) => {
                let ghost pre = self.entries@;
                self.entries.remove(i);
                proof {
                    assert(self@ =~= s0.remove(i as int)) by {
                        assert(pre.remove(i as int).map_values(|x: FileEntity| x@) =~= views_of(
                            pre,
                        ).remove(i as int));
                    }
                    lemma_remove_at_is_filter(s0, i as int, e@.id);
                }
            },
            None => {
                proof {
                    lemma_filter_all_true(s0, |x: FileEntityView| x.id != e@.id);
                }
            },
        }
        let ghost rem = remove_id(s0, e@.id);
        proof {
            assert(self@ == rem);
        }
        let j = self.insertion_point(&e);
        proof {
            lemma_insert_at_is_insert_sorted(rem, e@, j as int);
        }
        let ghost pre = self.entries@;
        self.entries.insert(j, e);
        proof {
            assert(self@ =~= rem.insert(j as int, e@)) by {
                assert(pre.insert(j as int, e).map_values(|x: FileEntity| x@) =~= views_of(
                    pre,
                ).insert(j as int, e@));
            }
        }
    }

    /// Takes an identity out of the index.  Removing an absent identity
    /// changes nothing.
    pub fn remove(&mut self, id: FileId)
        requires
            old(self).wf(),
        ensures
            final(self).wf(),
            final(self)@ == remove_id(old(self)@, id),
    {
        let ghost s0 = self@;
        proof {
            lemma_remove_seq(s0, id);
        }
        match self.position_of_id(id) {
            Some(i) => {
                let ghost pre = self.entries@;
                self.entries.remove(i);
                proof {
                    assert(self@ =~= s0.remove(i as int)) by {
                        assert(pre.remove(i as int).map_values(|x: FileEntity| x@) =~= views_of(
                            pre,
                        ).remove(i as int));
                    }
                    lemma_remove_at_is_filter(s0, i as int, id);
                }
            },
            None => {
                proof {
                    lemma_filter_all_true(s0, |x: FileEntityView| x.id != id);
                }
            },
        }
    }

    /// The name of every entity of the index, ordered from an ancestor
    /// down to the entity itself; the root directory's own name is not
    /// part of any path.  A missing identity, a missing ancestor, or an
    /// accidental parent cycle yields `BrokenChain`, never a panic.
    pub fn path_of(&self, id: FileId) -> (r: Result<Vec<String>, ErrorKind>)
        requires
            self.wf(),
        ensures
            match r {
                Ok(v) => path_spec(self@, id, self@.len() as nat) == Ok::<_, ErrorKind>(
                    names_of(v@),
                ),
                Err(e) => path_spec(self@, id, self@.len() as nat) == Err::<Seq<Seq<char>>, _>(e),
            },
    {
        let fuel = self.entries.len();
        self.path_rec(id, fuel)
    }

    /// The recursive walk behind `path_of`, bounded by `fuel` steps.
    fn path_rec(&self, id: FileId, fuel: usize) -> (r: Result<Vec<String>, ErrorKind>)
        requires
            self.wf(),
        ensures
            match r {
                Ok(v) => path_spec(self@, id, fuel as nat) == Ok::<_, ErrorKind>(names_of(v@)),
                Err(e) => path_spec(self@, id, fuel as nat) == Err::<Seq<Seq<char>>, _>(e),
            },
        decreases fuel,
    {
        proof {
            lemma_as_map_props(self@);
        }
        match self.position_of_id(id) {
            None => {
                proof {
                    if as_map(self@).contains_key(id) {
                        let i = choose|i: int|
                            0 <= i < self@.len() && (#[trigger] self@[i]).id == id;
                        assert(false);
                    }
                }
                Err(ErrorKind::BrokenChain)
            },
            Some(i) => {
                proof {
                    assert(as_map(self@).contains_key(id) && as_map(self@)[id] == self@[i as int]);
                }
                let parent = self.entries[i].parent_id();
                if parent == id {
                    let empty: Vec<String> = Vec::new();
                    proof {
                        assert(names_of(empty@) =~= Seq::<Seq<char>>::empty());
                    }
                    Ok(empty)
                } else if fuel == 0 {
                    Err(ErrorKind::BrokenChain)
                } else {
                    match self.path_rec(parent, fuel - 1) {
                        Ok(mut v) => {
                            let ghost pre = v@;
                            v.push(self.entries[i].name().to_owned());
                            proof {
                                assert(names_of(v@) =~= names_of(pre).push(
                                    self@[i as int].name,
                                ));
                            }
                            Ok(v)
                        },
                        Err(e) => Err(e),
                    }
                }
            },
        }
    }

    /// How many entities of the index match the pattern, independent of
    /// pagination.
    pub fn count(&self, pattern: &str) -> (r: usize)
        requires
            self.wf(),
        ensures
            r == self@.filter(|v: FileEntityView| matches_view(v, pattern@)).len(),
    {
        let ghost pred = |v: FileEntityView| matches_view(v, pattern@);
        let pat_lower = lower_vec(pattern.as_bytes());
        let n: usize = self.entries.len();
        let mut cnt: usize = 0;
        let mut i: usize = 0;
        proof {
            reveal(Seq::filter);
            assert(self@.take(0) =~= Seq::<FileEntityView>::empty());
        }
        while i < n
            invariant
                n == self.entries@.len(),
                self@.len() == n,
                i <= n,
                pat_lower@ == lower_bytes(encode_utf8(pattern@)),
                pred == (|v: FileEntityView| matches_view(v, pattern@)),
                cnt == self@.take(i as int).filter(pred).len(),
                cnt <= i,
            decreases n - i,
        {
            let ghost prefix = self@.take(i as int);
            let is_match = contains_lowered(self.entries[i].name().as_bytes(), &pat_lower);
            proof {
                reveal(Seq::filter);
                assert(self@.take(i as int + 1).drop_last() =~= prefix);
                assert(self@.take(i as int + 1).last() == self@[i as int]);
                assert(is_match == pred(self@[i as int]));
            }
            if is_match {
                cnt = cnt + 1;
            }
            i = i + 1;
        }
        proof {
            assert(self@.take(n as int) =~= self@);
        }
        cnt
    }

    /// One page of the entities whose names match the pattern, in index
    /// order, starting strictly after the resume key; and the key to hand
    /// back for the next page, present exactly when the page is full.
    pub fn search(&self, pattern: &str, page_size: usize, resume_key: Option<&ResumeKey>) -> (r: (
        Vec<FileEntity>,
        Option<ResumeKey>,
    ))
        requires
            self.wf(),
        ensures
            views_of(r.0@) == page_of(self@, pattern@, rk_view(resume_key), page_size as int),
            match r.1 {
                Some(k) => r.0@.len() == page_size && r.0@.len() > 0 && k@.name == views_of(
                    r.0@,
                ).last().name && k@.id == views_of(r.0@).last().id,
                None => r.0@.len() < page_size || r.0@.len() == 0,
            },
    {
        let ghost rk = rk_view(resume_key);
        let pat_lower = lower_vec(pattern.as_bytes());
        let n: usize = self.entries.len();
        let mut out: Vec<FileEntity> = Vec::new();
        let mut i: usize = 0;
        proof {
            reveal(Seq::filter);
            assert(self@.take(0) =~= Seq::<FileEntityView>::empty());
            assert(views_of(out@) =~= Seq::<FileEntityView>::empty());
        }
        while i < n
            invariant
                n == self.entries@.len(),
                self@.len() == n,
                i <= n,
                pat_lower@ == lower_bytes(encode_utf8(pattern@)),
                rk == rk_view(resume_key),
                views_of(out@) == clip_page(
                    self@.take(i as int).filter(search_pred(pattern@, rk)),
                    page_size as int,
                ),
                out@.len() <= page_size,
            decreases n - i,
        {
            let ghost pred = search_pred(pattern@, rk);
            let ghost prefix = self@.take(i as int);
            let ghost m = prefix.filter(pred);
            let e = &self.entries[i];
            let is_match = contains_lowered(e.name().as_bytes(), &pat_lower) && self.after_key(
                e,
                resume_key,
            );
            proof {
                reveal(Seq::filter);
                assert(self@.take(i as int + 1).drop_last() =~= prefix);
                assert(self@.take(i as int + 1).last() == self@[i as int]);
                assert(is_match == pred(self@[i as int]));
            }
            if is_match && out.len() < page_size {
                let ghost pre_out = out@;
                out.push(e.clone());
                proof {
                    assert(views_of(out@) =~= views_of(pre_out).push(self@[i as int]));
                    assert(m.len() == pre_out.len());
                    assert(clip_page(m.push(self@[i as int]), page_size as int) =~= views_of(
                        out@,
                    ));
                }
            } else {
                proof {
                    if is_match {
                        assert(m.len() >= page_size);
                        assert(clip_page(m.push(self@[i as int]), page_size as int) =~= clip_page(
                            m,
                            page_size as int,
                        ));
                    }
                }
            }
            i = i + 1;
        }
        proof {
            assert(self@.take(n as int) =~= self@);
        }
        let next = if out.len() == page_size && out.len() > 0 {
            let last = &out[out.len() - 1];
            Some(ResumeKey { name: last.name().to_owned(), id: last.id() })
        } else {
            None
        };
        (out, next)
    }

    /// Whether an entity stands strictly after the resume key in the
    /// index order.
    fn after_key(&self, e: &FileEntity, resume_key: Option<&ResumeKey>) -> (r: bool)
        ensures
            r == after_key_view(e@, rk_view(resume_key)),
    {
        match resume_key {
            None => true,
            Some(k) => {
                let kn = k.name.as_str().as_bytes();
                let en = e.name().as_bytes();
                if bytes_less(kn, en) {
                    true
                } else if bytes_less(en, kn) {
                    false
                } else {
                    proof {
                        lemma_bytes_lt_total(kn@, en@);
                    }
                    id_less(k.id, e.id())
                }
            },
        }
    }

    /// Populates the index from a batch of entities, in the order given.
    /// The batch may arrive in any order: parents after children, and a
    /// later entity of an identity replaces an earlier one.
    pub fn bulk_add(&mut self, entities: Vec<FileEntity>)
        requires
            old(self).wf(),
        ensures
            final(self).wf(),
            final(self)@ == apply_upserts(old(self)@, views_of(entities@)),
    {
        let ghost s0 = self@;
        let ghost es0 = views_of(entities@);
        let mut remaining = entities;
        while remaining.len() > 0
            invariant
                self.wf(),
                apply_upserts(s0, es0) == apply_upserts(self@, views_of(remaining@)),
            decreases remaining@.len(),
    {
            let ghost rem0 = views_of(remaining@);
            let e = remaining.remove(0);
            proof {
                assert(views_of(remaining@) =~= rem0.skip(1));
                assert(rem0[0] == e@);
            }
            self.upsert(e);
        }
        proof {
            assert(views_of(remaining@).len() == 0);
            assert(apply_upserts(self@, views_of(remaining@)) == self@);
        }
    }
}

/// A filter keeps exactly the elements that two pointwise-equal
/// predicates agree to keep.
pub proof fn lemma_filter_congruence(
    s: Seq<FileEntityView>,
    p: spec_fn(FileEntityView) -> bool,
    q: spec_fn(FileEntityView) -> bool,
)
    requires
        forall|i: int| 0 <= i < s.len() ==> p(#[trigger] s[i]) == q(s[i]),
    ensures
        s.filter(p) == s.filter(q),
    decreases s.len(),
{
    reveal(Seq::filter);
    if s.len() > 0 {
        let dl = s.drop_last();
        assert(forall|i: int| 0 <= i < dl.len() ==> p(#[trigger] dl[i]) == q(dl[i])) by {
            assert(forall|i: int| 0 <= i < dl.len() ==> dl[i] == s[i]);
        }
        lemma_filter_congruence(dl, p, q);
        assert(p(s.last()) == q(s.last()));
    }
}

/// The conjunction of two selections.
pub open spec fn and_pred(
    p: spec_fn(FileEntityView) -> bool,
    q: spec_fn(FileEntityView) -> bool,
) -> spec_fn(FileEntityView) -> bool {
    |v: FileEntityView| p(v) && q(v)
}

/// The selection of entities strictly past a resume key.
pub open spec fn gt_key(k: ResumeKeyView) -> spec_fn(FileEntityView) -> bool {
    |v: FileEntityView| after_key_view(v, Some(k))
}

/// Filtering twice is filtering by the conjunction.
pub proof fn lemma_filter_filter(
    s: Seq<FileEntityView>,
    p: spec_fn(FileEntityView) -> bool,
    q: spec_fn(FileEntityView) -> bool,
)
    ensures
        s.filter(p).filter(q) == s.filter(and_pred(p, q)),
    decreases s.len(),
{
    reveal(Seq::filter);
    let both = and_pred(p, q);
    if s.len() == 0 {
        assert(s.filter(p).filter(q) =~= s.filter(both));
    } else {
        let dl = s.drop_last();
        lemma_filter_filter(dl, p, q);
        if p(s.last()) {
            assert(s.filter(p) == dl.filter(p).push(s.last()));
            assert(s.filter(p).drop_last() =~= dl.filter(p));
            assert(s.filter(p).last() == s.last());
            if q(s.last()) {
                assert(s.filter(p).filter(q) =~= dl.filter(p).filter(q).push(s.last()));
                assert(s.filter(both) =~= dl.filter(both).push(s.last()));
            } else {
                assert(s.filter(p).filter(q) =~= dl.filter(p).filter(q));
                assert(s.filter(both) =~= dl.filter(both));
            }
        } else {
            assert(s.filter(p) == dl.filter(p));
            assert(s.filter(both) =~= dl.filter(both));
        }
    }
}

/// Filtering a sequence by a predicate that holds exactly from position
/// `t` on keeps exactly the suffix from `t`.
pub proof fn lemma_filter_suffix(s: Seq<FileEntityView>, p: spec_fn(FileEntityView) -> bool, t: int)
    requires
        0 <= t <= s.len(),
        forall|i: int| 0 <= i < s.len() ==> p(#[trigger] s[i]) == (i >= t),
    ensures
        s.filter(p) == s.skip(t),
    decreases s.len(),
{
    reveal(Seq::filter);
    if s.len() == 0 {
        assert(s.filter(p) =~= s.skip(t));
    } else {
        let dl = s.drop_last();
        if s.len() - 1 >= t {
            assert(p(s.last()));
            assert(forall|i: int| 0 <= i < dl.len() ==> p(#[trigger] dl[i]) == (i >= t)) by {
                assert(forall|i: int| 0 <= i < dl.len() ==> dl[i] == s[i]);
            }
            lemma_filter_suffix(dl, p, t);
            assert(s.filter(p) == dl.skip(t).push(s.last()));
            assert(dl.skip(t).push(s.last()) =~= s.skip(t));
        } else {
            assert(t == s.len());
            assert(!p(s.last()));
            assert(forall|i: int| 0 <= i < dl.len() ==> p(#[trigger] dl[i]) == (i >= dl.len()))
                by {
                assert(forall|i: int| 0 <= i < dl.len() ==> dl[i] == s[i]);
            }
            lemma_filter_suffix(dl, p, dl.len() as int);
            assert(s.filter(p) == dl.skip(dl.len() as int));
            assert(dl.skip(dl.len() as int) =~= s.skip(t));
        }
    }
}

/// An entity past the resume key, seen from a key strictly below it, is
/// past that key too.
proof fn lemma_after_key_step(k: ResumeKeyView, u: FileEntityView, v: FileEntityView)
    requires
        after_key_view(u, Some(k)),
        ent_lt(u, v),
    ensures
        after_key_view(v, Some(k)),
{
    let kn = encode_utf8(k.name);
    if bytes_lt(kn, name_bytes(u)) {
        if bytes_lt(name_bytes(u), name_bytes(v)) {
            lemma_bytes_lt_trans(kn, name_bytes(u), name_bytes(v));
        }
    }
}

/// An entity past one search result, in index order, is past the resume
/// key of that search.
proof fn lemma_after_key_trans(r: Option<ResumeKeyView>, u: FileEntityView, v: FileEntityView)
    requires
        after_key_view(u, r),
        ent_lt(u, v),
    ensures
        after_key_view(v, r),
{
    match r {
        None => (),
        Some(k) => lemma_after_key_step(k, u, v),
    }
}

/// An upsert followed by a removal of the same identity leaves no trace
/// of that identity: no page of any search, for any pattern and any
/// resume key, holds an entity of that identity.
pub proof fn lemma_upsert_remove_no_trace(
    s: Seq<FileEntityView>,
    e: FileEntityView,
    pattern: Seq<char>,
    r: Option<ResumeKeyView>,
    n: int,
)
    requires
        wf_seq(s),
        0 <= n,
    ensures
        forall|i: int|
            0 <= i < page_of(remove_id(upsert_seq(s, e), e.id), pattern, r, n).len() ==> (
            #[trigger] page_of(remove_id(upsert_seq(s, e), e.id), pattern, r, n)[i]).id != e.id,
{
    let s1 = upsert_seq(s, e);
    let s2 = remove_id(s1, e.id);
    let idpred = |v: FileEntityView| v.id != e.id;
    let m = s2.filter(search_pred(pattern, r));
    Seq::filter_lemma(s1, idpred);
    lemma_filter_membership(s2, search_pred(pattern, r));
    Seq::lemma_filter_len(s2, search_pred(pattern, r));
    assert forall|i: int| 0 <= i < page_of(s2, pattern, r, n).len() implies (#[trigger] page_of(
        s2,
        pattern,
        r,
        n,
    )[i]).id != e.id by {
        let page = page_of(s2, pattern, r, n);
        assert(page == clip_page(m, n));
        if n <= m.len() {
            assert(page[i] == m.take(n)[i]);
        }
        assert(page[i] == m[i]);
        assert(s2.contains(m[i]));
        let j = choose|j: int| 0 <= j < s2.len() && s2[j] == m[i];
        assert(idpred(s2[j]));
    }
}

/// Two consecutive pages of one search are disjoint, and together they
/// rebuild the unpaginated result: the first page, concatenated with
/// everything the resumed search returns, is exactly the full match
/// list, and a second page large enough to hold the rest completes it.
pub proof fn lemma_search_pages(
    s: Seq<FileEntityView>,
    pattern: Seq<char>,
    r0: Option<ResumeKeyView>,
    n1: int,
    n2: int,
)
    requires
        wf_seq(s),
        1 <= n1,
        0 <= n2,
        n1 == page_of(s, pattern, r0, n1).len(),
    ensures
        ({
            let m = s.filter(search_pred(pattern, r0));
            let p1 = page_of(s, pattern, r0, n1);
            let k1 = ResumeKeyView { name: p1.last().name, id: p1.last().id };
            let m2 = s.filter(search_pred(pattern, Some(k1)));
            let p2 = page_of(s, pattern, Some(k1), n2);
            &&& m2 == m.skip(n1)
            &&& p1 + m2 == m
            &&& forall|i: int, j: int|
                0 <= i < p1.len() && 0 <= j < p2.len() ==> (#[trigger] p1[i]).id != (
                #[trigger] p2[j]).id
            &&& n2 >= m2.len() ==> p1 + p2 == m
        }),
{
    let pred0 = search_pred(pattern, r0);
    let m = s.filter(pred0);
    lemma_filter_sorted(s, pred0);
    lemma_filter_unique(s, pred0);
    Seq::lemma_filter_len(s, pred0);
    let p1 = page_of(s, pattern, r0, n1);
    assert(n1 <= m.len());
    assert(p1 == m.take(n1));
    let last = m[n1 - 1];
    assert(p1.last() == last);
    let k1 = ResumeKeyView { name: p1.last().name, id: p1.last().id };
    lemma_resumed_is_suffix(s, pattern, r0, n1, k1);
    let m2 = s.filter(search_pred(pattern, Some(k1)));
    assert(m2 == m.skip(n1));
    assert(p1 + m2 =~= m);
    let p2 = page_of(s, pattern, Some(k1), n2);
    assert(p2 == clip_page(m2, n2));
    assert forall|i: int, j: int| 0 <= i < p1.len() && 0 <= j < p2.len() implies (
    #[trigger] p1[i]).id != (#[trigger] p2[j]).id by {
        assert(p1[i] == m[i]);
        if n2 <= m2.len() {
            assert(p2[j] == m2.take(n2)[j]);
        }
        assert(p2[j] == m2[j]);
        assert(m2[j] == m[n1 + j]);
    }
    if n2 >= m2.len() {
        assert(p2 == m2);
        assert(p1 + p2 =~= m);
    }
}

/// The selection of a search resumed at the key of the full page's last
/// match keeps exactly the matches past that page.
proof fn lemma_resumed_is_suffix(
    s: Seq<FileEntityView>,
    pattern: Seq<char>,
    r0: Option<ResumeKeyView>,
    n1: int,
    k1: ResumeKeyView,
)
    requires
        wf_seq(s),
        1 <= n1 <= s.filter(search_pred(pattern, r0)).len(),
        encode_utf8(k1.name) == name_bytes(s.filter(search_pred(pattern, r0))[n1 - 1]),
        k1.id == s.filter(search_pred(pattern, r0))[n1 - 1].id,
    ensures
        s.filter(search_pred(pattern, Some(k1))) == s.filter(search_pred(pattern, r0)).skip(n1),
{
    let pred0 = search_pred(pattern, r0);
    let pred1 = search_pred(pattern, Some(k1));
    let gt = gt_key(k1);
    let m = s.filter(pred0);
    lemma_filter_sorted(s, pred0);
    lemma_filter_unique(s, pred0);
    Seq::filter_lemma(s, pred0);
    let last = m[n1 - 1];
    // the resumed selection is the original selection restricted past the key
    assert forall|i: int| 0 <= i < s.len() implies pred1(#[trigger] s[i]) == and_pred(
        pred0,
        gt,
    )(s[i]) by {
        let v = s[i];
        if gt(v) {
            if matches_view(v, pattern) {
                lemma_after_key_trans(r0, last, v);
            }
        }
    }
    lemma_filter_congruence(s, pred1, and_pred(pred0, gt));
    lemma_filter_filter(s, pred0, gt);
    assert(s.filter(pred1) == m.filter(gt));
    // past-the-key holds exactly from position n1 of the sorted matches
    assert forall|i: int| 0 <= i < m.len() implies gt(#[trigger] m[i]) == (i >= n1) by {
        if i >= n1 {
            assert(ent_lt(last, m[i]));
        } else if i == n1 - 1 {
            lemma_bytes_lt_irrefl(name_bytes(last));
        } else {
            assert(ent_lt(m[i], last));
            if gt(m[i]) {
                lemma_bytes_lt_irrefl(name_bytes(m[i]));
                if bytes_lt(name_bytes(last), name_bytes(m[i])) {
                    if bytes_lt(name_bytes(m[i]), name_bytes(last)) {
                        lemma_bytes_lt_trans(
                            name_bytes(m[i]),
                            name_bytes(last),
                            name_bytes(m[i]),
                        );
                    }
                }
            }
        }
    }
    lemma_filter_suffix(m, gt, n1);
}

/// The path of a direct child of the root is the one-element sequence of
/// the child's own name.
pub proof fn lemma_path_of_root_child(s: Seq<FileEntityView>, id: FileId, fuel: nat)
    requires
        wf_seq(s),
        fuel >= 1,
        as_map(s).contains_key(id),
        as_map(s)[id].parent_id != id,
        as_map(s).contains_key(as_map(s)[id].parent_id),
        as_map(s)[as_map(s)[id].parent_id].parent_id == as_map(s)[id].parent_id,
    ensures
        path_spec(s, id, fuel) == Ok::<_, ErrorKind>(seq![as_map(s)[id].name]),
{
    let e = as_map(s)[id];
    assert(path_spec(s, e.parent_id, (fuel - 1) as nat) == Ok::<_, ErrorKind>(
        Seq::<Seq<char>>::empty(),
    ));
    assert(Seq::<Seq<char>>::empty().push(e.name) =~= seq![e.name]);
}

/// A path query for a removed identity fails with the broken-chain
/// error, whatever the fuel.
pub proof fn lemma_path_of_removed(s: Seq<FileEntityView>, id: FileId, fuel: nat)
    requires
        wf_seq(s),
    ensures
        path_spec(remove_id(s, id), id, fuel) == Err::<Seq<Seq<char>>, ErrorKind>(
            ErrorKind::BrokenChain,
        ),
{
    lemma_remove_seq(s, id);
    lemma_as_map_remove(s, id);
    assert(!as_map(remove_id(s, id)).contains_key(id));
}

} // verus!
