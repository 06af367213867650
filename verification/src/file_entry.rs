//! Folding the decoded attributes of one file record into a single entry.

use crate::attributes::Attribute;
use crate::attributes::AttributeTypeView;
use crate::attributes::AttributeView;
use crate::attributes::Datarun;
use crate::attributes::attrs_view;
use vstd::prelude::*;

verus! {

/// Naming records in this namespace carry only a short legacy alias and
/// must never become an entry's display name.
pub const DOS_NAMESPACE: u8 = 2;

/// Everything one file record says about a file: its identity, display
/// name, parent, sizes, dates, flags, and data extents.
#[derive(Debug)]
pub struct FileEntry {
    pub id: u32,
    pub name: String,
    pub dos_flags: u32,
    pub dos_flags1: u32,
    pub parent_id: u64,
    pub real_size: u64,
    pub logical_size: u64,
    pub modified_date: u64,
    pub created_date: u64,
    pub dataruns: Vec<Datarun>,
    pub flags: u16,
}

/// Mathematical image of a `FileEntry`.
pub struct FileEntryView {
    pub id: u32,
    pub name: Seq<char>,
    pub dos_flags: u32,
    pub dos_flags1: u32,
    pub parent_id: u64,
    pub real_size: u64,
    pub logical_size: u64,
    pub modified_date: u64,
    pub created_date: u64,
    pub dataruns: Seq<Datarun>,
    pub flags: u16,
}

impl View for FileEntry {
    type V = FileEntryView;

    open spec fn view(&self) -> FileEntryView {
        FileEntryView {
            id: self.id,
            name: self.name@,
            dos_flags: self.dos_flags,
            dos_flags1: self.dos_flags1,
            parent_id: self.parent_id,
            real_size: self.real_size,
            logical_size: self.logical_size,
            modified_date: self.modified_date,
            created_date: self.created_date,
            dataruns: self.dataruns@,
            flags: self.flags,
        }
    }
}

/// The empty entry that attribute folding starts from.
pub open spec fn empty_entry_view(id: u32) -> FileEntryView {
    FileEntryView {
        id,
        name: Seq::empty(),
        dos_flags: 0,
        dos_flags1: 0,
        parent_id: 0,
        real_size: 0,
        logical_size: 0,
        modified_date: 0,
        created_date: 0,
        dataruns: Seq::empty(),
        flags: 0,
    }
}

/// How one attribute updates an entry under construction: the
/// standard-information payload sets dates and DOS flags, a naming payload
/// outside the legacy namespace sets name, parent and sizes, and the data
/// payload sets the extent list.
pub open spec fn apply_attr_view(acc: FileEntryView, attr: AttributeView) -> FileEntryView {
    match attr.attr_type {
        AttributeTypeView::Standard(val) => FileEntryView {
            dos_flags1: val.dos_flags,
            modified_date: val.modified,
            created_date: val.created,
            ..acc
        },
        AttributeTypeView::Filename(val) => {
            if val.namespace != DOS_NAMESPACE {
                FileEntryView {
                    name: val.name,
                    parent_id: val.parent_id,
                    real_size: val.real_size,
                    logical_size: val.allocated_size,
                    dos_flags: val.flags,
                    ..acc
                }
            } else {
                acc
            }
        },
        AttributeTypeView::Data(val) => FileEntryView { dataruns: val, ..acc },
    }
}

/// Folds a sequence of attributes over an entry, first to last.
pub open spec fn fold_attrs_view(acc: FileEntryView, attrs: Seq<AttributeView>) -> FileEntryView
    decreases attrs.len(),
{
    if attrs.len() == 0 {
        acc
    } else {
        fold_attrs_view(apply_attr_view(acc, attrs[0]), attrs.skip(1))
    }
}

/// Folding one more attribute applies it to the folded prefix.
pub proof fn lemma_fold_attrs_push(acc: FileEntryView, attrs: Seq<AttributeView>, x: AttributeView)
    ensures
        fold_attrs_view(acc, attrs.push(x)) == apply_attr_view(fold_attrs_view(acc, attrs), x),
    decreases attrs.len(),
{
    let p = attrs.push(x);
    if attrs.len() == 0 {
        assert(p[0] == x);
        assert(p.skip(1) =~= Seq::<AttributeView>::empty());
        assert(fold_attrs_view(acc, p) == fold_attrs_view(apply_attr_view(acc, x), p.skip(1)));
        assert(fold_attrs_view(apply_attr_view(acc, x), p.skip(1)) == apply_attr_view(acc, x));
        assert(fold_attrs_view(acc, attrs) == acc);
    } else {
        lemma_fold_attrs_push(apply_attr_view(acc, attrs[0]), attrs.skip(1), x);
        assert(p.skip(1) =~= attrs.skip(1).push(x));
        assert(p[0] == attrs[0]);
        assert(fold_attrs_view(acc, p) == fold_attrs_view(apply_attr_view(acc, attrs[0]), p.skip(
            1,
        )));
        assert(fold_attrs_view(acc, attrs) == fold_attrs_view(
            apply_attr_view(acc, attrs[0]),
            attrs.skip(1),
        ));
    }
}

impl FileEntry {
    /// Builds the entry with record number `id` that a decoded attribute
    /// sequence describes.
    pub fn new(attrs: Vec<Attribute>, id: u32) -> (r: FileEntry)
        ensures
            r@ == fold_attrs_view(empty_entry_view(id), attrs_view(attrs@)),
    {
        let mut result = FileEntry {
            id,
            name: String::new(),
            dos_flags: 0,
            dos_flags1: 0,
            parent_id: 0,
            real_size: 0,
            logical_size: 0,
            modified_date: 0,
            created_date: 0,
            dataruns: Vec::new(),
            flags: 0,
        };
        let n: usize = attrs.len();
        let mut i: usize = 0;
        proof {
            assert(attrs_view(attrs@).take(0) =~= Seq::<AttributeView>::empty());
        }
        while i < n
            invariant
                n == attrs@.len(),
                i <= n,
                result@ == fold_attrs_view(empty_entry_view(id), attrs_view(attrs@).take(i as int)),
            decreases n - i,
        {
            let ghost prefix = attrs_view(attrs@).take(i as int);
            let attr = &attrs[i];
            match &attr.attr_type {
                crate::attributes::AttributeType::Standard(val) => {
                    result.dos_flags1 = val.dos_flags;
                    result.modified_date = val.modified;
                    result.created_date = val.created;
                },
                crate::attributes::AttributeType::Filename(val) => {
                    if val.namespace != DOS_NAMESPACE {
                        result.name = val.name.clone();
                        result.parent_id = val.parent_id;
                        result.real_size = val.real_size;
                        result.logical_size = val.allocated_size;
                        result.dos_flags = val.flags;
                    }
                },
                crate::attributes::AttributeType::Data(val) => {
                    result.dataruns = val.clone();
                },
            }
            proof {
                lemma_fold_attrs_push(empty_entry_view(id), prefix, attrs@[i as int]@);
                assert(attrs_view(attrs@).take(i as int + 1) =~= prefix.push(attrs@[i as int]@));
                assert(result@ == apply_attr_view(fold_attrs_view(empty_entry_view(id), prefix),
                    attrs@[i as int]@));
            }
            i = i + 1;
        }
        proof {
            assert(attrs_view(attrs@).take(n as int) =~= attrs_view(attrs@));
        }
        result
    }
}

} // verus!
