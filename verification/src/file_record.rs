//! One master-file-table record: magic check, fix-up application, and
//! decoding into a `FileEntry`.

use crate::attributes::attrs_view;
use crate::attributes::parse_attrs;
use crate::bytes::le_value;
use crate::bytes::lemma_le_value_bound;
use crate::bytes::lemma_pow256_u64;
use crate::bytes::read_le;
use crate::errors::ErrorKind;
use crate::file_entry::FileEntry;
use crate::file_entry::FileEntryView;
use crate::file_entry::empty_entry_view;
use crate::file_entry::fold_attrs_view;
use crate::volume::VolumeData;
use vstd::arithmetic::div_mod::lemma_fundamental_div_mod_converse;
use vstd::prelude::*;

verus! {

/// Whether a buffer starts with the magic signature of an in-use file
/// record.
pub open spec fn has_file_magic(s: Seq<u8>) -> bool {
    s.len() >= 4 && s[0] == 0x46 && s[1] == 0x49 && s[2] == 0x4C && s[3] == 0x45
}

/// Where the fix-up array of a record sits.
pub open spec fn fixup_offset(s: Seq<u8>) -> int {
    le_value(s.subrange(4, 6)) as int
}

/// How many 16-bit entries the fix-up array holds: one signature entry,
/// then one saved entry per sector of the record.
pub open spec fn fixup_count(s: Seq<u8>) -> int {
    le_value(s.subrange(6, 8)) as int
}

/// Whether a record's fix-up array can be applied: the array must lie
/// wholly inside the first sector, before that sector's own fix-up
/// position, and every guarded sector must lie inside the record.
pub open spec fn fixup_valid(s: Seq<u8>, ss: int) -> bool {
    &&& s.len() >= 8
    &&& ss >= 0x10
    &&& fixup_count(s) >= 1
    &&& fixup_offset(s) + 2 * fixup_count(s) <= ss - 2
    &&& fixup_offset(s) + 2 * fixup_count(s) <= s.len()
    &&& (fixup_count(s) - 1) * ss <= s.len()
}

/// Whether byte `i` is one of the two trailing bytes of a guarded sector:
/// the bytes that the on-disk format overwrites with the fix-up signature
/// and that must be restored from the array.
pub open spec fn is_fixup_pos(s: Seq<u8>, ss: int, i: int) -> bool {
    i % ss >= ss - 2 && i / ss + 1 <= fixup_count(s) - 1
}

/// The byte of the restored record at position `i`: a trailing byte of
/// sector `k` (counted from zero) is restored from array entry `k + 1`,
/// every other byte is kept.
pub open spec fn fixup_byte(s: Seq<u8>, ss: int, i: int) -> u8 {
    if is_fixup_pos(s, ss, i) {
        s[fixup_offset(s) + 2 * (i / ss + 1) + (i % ss - (ss - 2))]
    } else {
        s[i]
    }
}

/// The record with its original trailing sector bytes restored from the
/// fix-up array.
pub open spec fn fixup_apply(s: Seq<u8>, ss: int) -> Seq<u8> {
    Seq::new(s.len(), |i: int| fixup_byte(s, ss, i))
}

/// The partially restored record: sectors before `upto` are restored,
/// the rest is untouched.
pub open spec fn fixup_partial(s: Seq<u8>, ss: int, upto: int) -> Seq<u8> {
    Seq::new(
        s.len(),
        |i: int|
            if is_fixup_pos(s, ss, i) && i / ss + 1 < upto {
                fixup_byte(s, ss, i)
            } else {
                s[i]
            },
    )
}

/// Restores the original trailing bytes of every sector of a record from
/// its fix-up array.  This must run before any attribute of the record is
/// decoded.
#[verifier::rlimit(100)]
pub fn apply_fixup(buffer: &mut Vec<u8>, volume: &VolumeData) -> (r: Result<(), ErrorKind>)
    requires
        volume.well_formed(),
    ensures
        match r {
            Ok(()) => fixup_valid(old(buffer)@, volume.bytes_per_sector as int) && final(buffer)@
                == fixup_apply(old(buffer)@, volume.bytes_per_sector as int),
            Err(e) => final(buffer)@ == old(buffer)@ && !fixup_valid(
                old(buffer)@,
                volume.bytes_per_sector as int,
            ) && e == ErrorKind::MalformedRecord,
        },
{
    let ghost s = buffer@;
    let ghost ssi = volume.bytes_per_sector as int;
    let n: usize = buffer.len();
    if n < 8 {
        return Err(ErrorKind::MalformedRecord);
    }
    let ss: usize = volume.bytes_per_sector as usize;
    proof {
        lemma_le_value_bound(s.subrange(4, 6));
        lemma_le_value_bound(s.subrange(6, 8));
        lemma_pow256_u64();
    }
    let off: usize = read_le(buffer.as_slice(), 4, 2) as usize;
    let count: usize = read_le(buffer.as_slice(), 6, 2) as usize;
    if count < 1 {
        return Err(ErrorKind::MalformedRecord);
    }
    if off + 2 * count > ss - 2 {
        return Err(ErrorKind::MalformedRecord);
    }
    if off + 2 * count > n {
        return Err(ErrorKind::MalformedRecord);
    }
    proof {
        assert((count as int - 1) * (ss as int) < 0x1_0000_0000_0000) by (nonlinear_arith)
            requires
                1 <= count < 0x1_0000,
                0 < ss < 0x1_0000_0000,
        ;
    }
    if (count as u64 - 1) * (ss as u64) > n as u64 {
        return Err(ErrorKind::MalformedRecord);
    }
    proof {
        assert(fixup_valid(s, ssi));
    }
    let mut k: usize = 1;
    proof {
        assert(buffer@ =~= fixup_partial(s, ssi, 1));
    }
    while k < count
        invariant
            buffer@.len() == s.len(),
            n == s.len(),
            1 <= k <= count,
            ss == ssi,
            ss >= 0x10,
            off == fixup_offset(s),
            count == fixup_count(s),
            fixup_valid(s, ssi),
            buffer@ =~= fixup_partial(s, ssi, k as int),
        decreases count - k,
    {
        proof {
            assert((k as int) * ssi <= (count as int - 1) * ssi && (k as int) * ssi >= ssi && (
            k as int - 1) * ssi + (ssi - 2) == (k as int) * ssi - 2) by (nonlinear_arith)
                requires
                    1 <= k <= count - 1,
                    ssi >= 0x10,
            ;
            assert((count as int - 1) * ssi <= n as int);
        }
        let pos: usize = k * ss - 2;
        let src: usize = off + 2 * k;
        proof {
            assert(pos as int == (k as int) * ssi - 2);
            assert(src + 1 < ssi - 2);
            // the source bytes lie before every fix-up position
            lemma_fundamental_div_mod_converse(src as int, ssi, 0, src as int);
            lemma_fundamental_div_mod_converse(src as int + 1, ssi, 0, src as int + 1);
            assert(!is_fixup_pos(s, ssi, src as int));
            assert(!is_fixup_pos(s, ssi, src as int + 1));
            // the two target positions belong to sector k - 1
            lemma_fundamental_div_mod_converse(pos as int, ssi, k as int - 1, ssi - 2);
            lemma_fundamental_div_mod_converse(pos as int + 1, ssi, k as int - 1, ssi - 1);
            assert(is_fixup_pos(s, ssi, pos as int));
            assert(is_fixup_pos(s, ssi, pos as int + 1));
        }
        let b0: u8 = buffer[src];
        let b1: u8 = buffer[src + 1];
        buffer[pos] = b0;
        buffer[pos + 1] = b1;
        proof {
            assert forall|i: int| 0 <= i < s.len() implies buffer@[i] == fixup_partial(
                s,
                ssi,
                k as int + 1,
            )[i] by {
                if i == pos as int || i == pos as int + 1 {
                } else if is_fixup_pos(s, ssi, i) && i / ssi + 1 == k as int {
                    // sector k - 1 has exactly the two trailing positions
                    vstd::arithmetic::div_mod::lemma_fundamental_div_mod(i, ssi);
                    vstd::arithmetic::div_mod::lemma_mod_bound(i, ssi);
                    assert(i == ssi * (k as int - 1) + i % ssi);
                    assert(i % ssi == ssi - 2 || i % ssi == ssi - 1);
                    assert(false);
                }
            }
            assert(buffer@ =~= fixup_partial(s, ssi, k as int + 1));
        }
        k = k + 1;
    }
    proof {
        assert(buffer@ =~= fixup_apply(s, ssi));
    }
    Ok(())
}

/// Applying the fix-up array of an already restored record restores the
/// same bytes again: fix-up application is idempotent.
pub proof fn lemma_fixup_idempotent(s: Seq<u8>, ss: int)
    requires
        fixup_valid(s, ss),
    ensures
        fixup_valid(fixup_apply(s, ss), ss),
        fixup_apply(fixup_apply(s, ss), ss) == fixup_apply(s, ss),
{
    let f = fixup_apply(s, ss);
    assert forall|i: int| 4 <= i < 8 implies f[i] == s[i] by {
        vstd::arithmetic::div_mod::lemma_small_mod(i as nat, ss as nat);
        assert(!is_fixup_pos(s, ss, i));
    }
    assert(f.subrange(4, 6) =~= s.subrange(4, 6));
    assert(f.subrange(6, 8) =~= s.subrange(6, 8));
    assert(fixup_offset(f) == fixup_offset(s));
    assert(fixup_count(f) == fixup_count(s));
    assert forall|i: int| 0 <= i < s.len() implies fixup_apply(f, ss)[i] == f[i] by {
        if is_fixup_pos(f, ss, i) {
            let src = fixup_offset(s) + 2 * (i / ss + 1) + (i % ss - (ss - 2));
            assert(i / ss + 1 >= 1);
            assert(2 * (i / ss + 1) <= 2 * (fixup_count(s) - 1));
            assert(src < ss - 2);
            assert(src < s.len());
            vstd::arithmetic::div_mod::lemma_small_mod(src as nat, ss as nat);
            assert(!is_fixup_pos(s, ss, src));
            assert(f[src] == s[src]);
        }
    }
    assert(fixup_apply(f, ss) =~= f);
}

/// The entry that one raw file record denotes: `None` where the record is
/// malformed, `Some(None)` where the record is an unused slot (its magic
/// signature does not match), and `Some(Some(entry))` otherwise.  The
/// fix-up array is applied before anything beyond the header is read.
pub open spec fn parse_record(s: Seq<u8>, ss: int, last_attr: u32) -> Option<
    Option<FileEntryView>,
> {
    if s.len() < 0x30 {
        None
    } else if !has_file_magic(s) {
        Some(None)
    } else if !fixup_valid(s, ss) {
        None
    } else {
        let f = fixup_apply(s, ss);
        let attr_offset = le_value(f.subrange(0x14, 0x16)) as int;
        let flags = le_value(f.subrange(0x16, 0x18)) as u16;
        let fr_number = le_value(f.subrange(0x2C, 0x30)) as u32;
        if attr_offset > f.len() {
            None
        } else {
            match parse_attrs(f.skip(attr_offset), last_attr) {
                None => None,
                Some(avs) => Some(
                    Some(
                        FileEntryView {
                            flags,
                            ..fold_attrs_view(empty_entry_view(fr_number), avs)
                        },
                    ),
                ),
            }
        }
    }
}

/// Decodes one raw file record, restoring its fix-up bytes in place.
/// An unused slot is reported as `Ok(None)`, not as an error, so that a
/// scan can skip it and go on.  `last_attr` bounds the attribute walk:
/// callers that need only naming information pass a low cutoff.
pub fn parse_mft_entry(buffer: &mut Vec<u8>, volume: &VolumeData, last_attr: u32) -> (r: Result<
    Option<FileEntry>,
    ErrorKind,
>)
    requires
        volume.well_formed(),
    ensures
        match r {
            Ok(Some(e)) => parse_record(old(buffer)@, volume.bytes_per_sector as int, last_attr)
                == Some(Some(e@)),
            Ok(None) => parse_record(old(buffer)@, volume.bytes_per_sector as int, last_attr)
                == Some(None::<FileEntryView>),
            Err(e) => parse_record(old(buffer)@, volume.bytes_per_sector as int, last_attr)
                is None && e == ErrorKind::MalformedRecord,
        },
{
    let ghost s = buffer@;
    let ghost ssi = volume.bytes_per_sector as int;
    let n: usize = buffer.len();
    if n < 0x30 {
        return Err(ErrorKind::MalformedRecord);
    }
    if !(buffer[0] == 0x46 && buffer[1] == 0x49 && buffer[2] == 0x4C && buffer[3] == 0x45) {
        return Ok(None);
    }
    if let Err(e) = apply_fixup(buffer, volume) {
        return Err(e);
    }
    proof {
        assert(buffer@ == fixup_apply(s, ssi));
        lemma_le_value_bound(buffer@.subrange(0x14, 0x16));
        lemma_le_value_bound(buffer@.subrange(0x16, 0x18));
        lemma_le_value_bound(buffer@.subrange(0x2C, 0x30));
        lemma_pow256_u64();
    }
    let attr_offset: usize = read_le(buffer.as_slice(), 0x14, 2) as usize;
    let flags: u16 = read_le(buffer.as_slice(), 0x16, 2) as u16;
    let fr_number: u32 = read_le(buffer.as_slice(), 0x2C, 4) as u32;
    if attr_offset > n {
        return Err(ErrorKind::MalformedRecord);
    }
    let attrs = match crate::attributes::parse_attributes(
        &buffer.as_slice()[attr_offset..n],
        last_attr,
    ) {
        Ok(attrs) => attrs,
        Err(e) => {
            proof {
                assert(buffer@.subrange(attr_offset as int, n as int) =~= fixup_apply(
                    s,
                    ssi,
                ).skip(attr_offset as int));
            }
            return Err(e);
        },
    };
    proof {
        assert(buffer@.subrange(attr_offset as int, n as int) =~= fixup_apply(s, ssi).skip(
            attr_offset as int,
        ));
    }
    let ghost avs = attrs_view(attrs@);
    let mut entry = FileEntry::new(attrs, fr_number);
    entry.flags = flags;
    Ok(Some(entry))
}

/// Decodes the volume's own master-file-table descriptor record, whose
/// extent list locates every other record.
pub fn parse_fr0(buffer: &mut Vec<u8>, volume: &VolumeData) -> (r: Result<FileEntry, ErrorKind>)
    requires
        volume.well_formed(),
    ensures
        match r {
            Ok(e) => parse_record(
                old(buffer)@,
                volume.bytes_per_sector as int,
                crate::attributes::DATA,
            ) == Some(Some(e@)),
            Err(e) => !(parse_record(
                old(buffer)@,
                volume.bytes_per_sector as int,
                crate::attributes::DATA,
            ) matches Some(Some(_))) && e == ErrorKind::MalformedRecord,
        },
{
    match parse_mft_entry(buffer, volume, crate::attributes::DATA) {
        Ok(Some(e)) => Ok(e),
        Ok(None) => Err(ErrorKind::MalformedRecord),
        Err(e) => Err(e),
    }
}

} // verus!
