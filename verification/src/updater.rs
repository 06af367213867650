//! Applying decoded journal changes to the file index, in journal order,
//! and the proof that replaying a batch is idempotent.

use crate::file_entity::FileEntityView;
use crate::file_entity::FileId;
use crate::files::Files;
use crate::files::apply_upserts;
use crate::files::as_map;
use crate::files::lemma_canonical;
use crate::files::lemma_remove_seq;
use crate::files::lemma_upsert_seq;
use crate::files::remove_id;
use crate::files::upsert_seq;
use crate::files::wf_seq;
use crate::usn::UsnChange;
use crate::usn::UsnChangeView;
use vstd::prelude::*;

verus! {

/// The index after one change: creation and update reasons upsert the
/// paired entity, deletion removes the identity, everything else is left
/// alone.
pub open spec fn apply_change_seq(s: Seq<FileEntityView>, c: UsnChangeView) -> Seq<
    FileEntityView,
> {
    match c {
        UsnChangeView::New(e) => upsert_seq(s, e),
        UsnChangeView::Update(e) => upsert_seq(s, e),
        UsnChangeView::Delete(id) => remove_id(s, id),
        UsnChangeView::Ignore => s,
    }
}

/// The index after a whole batch, applied in journal order: later records
/// of one identity supersede earlier ones.
pub open spec fn apply_batch_seq(s: Seq<FileEntityView>, b: Seq<UsnChangeView>) -> Seq<
    FileEntityView,
>
    decreases b.len(),
{
    if b.len() == 0 {
        s
    } else {
        apply_batch_seq(apply_change_seq(s, b[0]), b.skip(1))
    }
}

/// The images of a sequence of changes.
pub open spec fn changes_view(cs: Seq<UsnChange>) -> Seq<UsnChangeView> {
    cs.map_values(|c: UsnChange| c@)
}

/// Applies one decoded change to the index.
pub fn apply_change(files: &mut Files, change: UsnChange)
    requires
        old(files).wf(),
    ensures
        final(files).wf(),
        final(files)@ == apply_change_seq(old(files)@, change@),
{
    match change {
        UsnChange::New(e) => files.upsert(e),
        UsnChange::Update(e) => files.upsert(e),
        UsnChange::Delete(id) => files.remove(id),
        UsnChange::Ignore => (),
    }
}

/// Applies a decoded batch to the index, in journal order.
pub fn apply_batch(files: &mut Files, changes: Vec<UsnChange>)
    requires
        old(files).wf(),
    ensures
        final(files).wf(),
        final(files)@ == apply_batch_seq(old(files)@, changes_view(changes@)),
{
    let ghost s0 = files@;
    let ghost cs0 = changes_view(changes@);
    let mut remaining = changes;
    while remaining.len() > 0
        invariant
            files.wf(),
            apply_batch_seq(s0, cs0) == apply_batch_seq(files@, changes_view(remaining@)),
        decreases remaining@.len(),
    {
        let ghost rem0 = changes_view(remaining@);
        let c = remaining.remove(0);
        proof {
            assert(changes_view(remaining@) =~= rem0.skip(1));
            assert(rem0[0] == c@);
        }
        apply_change(files, c);
    }
    proof {
        assert(changes_view(remaining@).len() == 0);
        assert(apply_batch_seq(files@, changes_view(remaining@)) == files@);
    }
}

/// The change touches the given identity.
pub open spec fn touches_one(c: UsnChangeView, k: FileId) -> bool {
    match c {
        UsnChangeView::New(e) => e.id == k,
        UsnChangeView::Update(e) => e.id == k,
        UsnChangeView::Delete(id) => id == k,
        UsnChangeView::Ignore => false,
    }
}

/// Some change of the batch touches the given identity.
pub open spec fn touches(b: Seq<UsnChangeView>, k: FileId) -> bool
    decreases b.len(),
{
    if b.len() == 0 {
        false
    } else {
        touches_one(b[0], k) || touches(b.skip(1), k)
    }
}

/// One change, applied to the index's map.
pub open spec fn apply_change_map(
    m: Map<FileId, FileEntityView>,
    c: UsnChangeView,
) -> Map<FileId, FileEntityView> {
    match c {
        UsnChangeView::New(e) => m.insert(e.id, e),
        UsnChangeView::Update(e) => m.insert(e.id, e),
        UsnChangeView::Delete(id) => m.remove(id),
        UsnChangeView::Ignore => m,
    }
}

/// A whole batch, applied to the index's map in order.
pub open spec fn apply_batch_map(
    m: Map<FileId, FileEntityView>,
    b: Seq<UsnChangeView>,
) -> Map<FileId, FileEntityView>
    decreases b.len(),
{
    if b.len() == 0 {
        m
    } else {
        apply_batch_map(apply_change_map(m, b[0]), b.skip(1))
    }
}

/// Two maps agree at one key: present in both with the same entity, or
/// absent from both.
pub open spec fn entry_eq(
    m1: Map<FileId, FileEntityView>,
    m2: Map<FileId, FileEntityView>,
    k: FileId,
) -> bool {
    m1.contains_key(k) == m2.contains_key(k) && (m1.contains_key(k) ==> m1[k] == m2[k])
}

/// Applying a batch keeps the index invariant, and acts on the index's
/// map change by change.
pub proof fn lemma_batch_refines(s: Seq<FileEntityView>, b: Seq<UsnChangeView>)
    requires
        wf_seq(s),
    ensures
        wf_seq(apply_batch_seq(s, b)),
        as_map(apply_batch_seq(s, b)) == apply_batch_map(as_map(s), b),
    decreases b.len(),
{
    if b.len() > 0 {
        let s1 = apply_change_seq(s, b[0]);
        match b[0] {
            UsnChangeView::New(e) => lemma_upsert_seq(s, e),
            UsnChangeView::Update(e) => lemma_upsert_seq(s, e),
            UsnChangeView::Delete(id) => lemma_remove_seq(s, id),
            UsnChangeView::Ignore => (),
        }
        lemma_batch_refines(s1, b.skip(1));
    }
}

/// A batch leaves alone every key it does not touch.
pub proof fn lemma_batch_untouched(m: Map<FileId, FileEntityView>, b: Seq<UsnChangeView>, k: FileId)
    requires
        !touches(b, k),
    ensures
        entry_eq(apply_batch_map(m, b), m, k),
    decreases b.len(),
{
    if b.len() > 0 {
        lemma_batch_untouched(apply_change_map(m, b[0]), b.skip(1), k);
    }
}

/// At every key a batch touches, the outcome does not depend on the map
/// the batch started from.
pub proof fn lemma_batch_touched(
    m1: Map<FileId, FileEntityView>,
    m2: Map<FileId, FileEntityView>,
    b: Seq<UsnChangeView>,
    k: FileId,
)
    requires
        touches(b, k),
    ensures
        entry_eq(apply_batch_map(m1, b), apply_batch_map(m2, b), k),
    decreases b.len(),
{
    let n1 = apply_change_map(m1, b[0]);
    let n2 = apply_change_map(m2, b[0]);
    if touches(b.skip(1), k) {
        lemma_batch_touched(n1, n2, b.skip(1), k);
    } else {
        lemma_batch_untouched(n1, b.skip(1), k);
        lemma_batch_untouched(n2, b.skip(1), k);
        assert(entry_eq(n1, n2, k));
    }
}

/// On the index's map, applying a batch twice is the same as applying it
/// once.
pub proof fn lemma_batch_map_idempotent(m: Map<FileId, FileEntityView>, b: Seq<UsnChangeView>)
    ensures
        apply_batch_map(apply_batch_map(m, b), b) == apply_batch_map(m, b),
{
    let m1 = apply_batch_map(m, b);
    let m2 = apply_batch_map(m1, b);
    assert forall|k: FileId| #[trigger] m2.contains_key(k) == m1.contains_key(k) by {
        if touches(b, k) {
            lemma_batch_touched(m1, m, b, k);
        } else {
            lemma_batch_untouched(m1, b, k);
        }
    }
    assert forall|k: FileId| #[trigger] m1.contains_key(k) implies m2[k] == m1[k] by {
        if touches(b, k) {
            lemma_batch_touched(m1, m, b, k);
        } else {
            lemma_batch_untouched(m1, b, k);
        }
    }
    assert(m2 =~= m1);
}

/// Journal replay is idempotent: applying the same decoded change batch
/// twice leaves the index exactly as applying it once does.
pub proof fn lemma_replay_idempotent(s: Seq<FileEntityView>, b: Seq<UsnChangeView>)
    requires
        wf_seq(s),
    ensures
        apply_batch_seq(apply_batch_seq(s, b), b) == apply_batch_seq(s, b),
{
    let s1 = apply_batch_seq(s, b);
    lemma_batch_refines(s, b);
    lemma_batch_refines(s1, b);
    lemma_batch_map_idempotent(as_map(s), b);
    lemma_canonical(apply_batch_seq(s1, b), s1);
}

} // verus!
