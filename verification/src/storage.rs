//! How a share is laid out for storage, and how a stored share is named.
//!
//! A stored share is: the magic number `SHS1`; a version byte; a flags byte
//! (bit 0 integrity checking, bit 1 compression); the index, the threshold
//! and the number of shares; the length of the data in four bytes, low byte
//! first; the data. Reading and writing the bytes is left to the store.

use crate::error::ShamirError;
use crate::outside::unexpected_eof;
use crate::share::{Share, ShareModel};
use crate::stream::{
    decode_flags, encode_flags, flag_compression, flag_integrity, flags_byte,
    lemma_flags_round_trip,
};
use vstd::bytes::{
    lemma_auto_spec_u32_to_from_le_bytes, spec_u32_from_le_bytes, spec_u32_to_le_bytes,
    u32_from_le_bytes, u32_to_le_bytes,
};
use vstd::prelude::*;
use vstd::slice::{slice_subrange, slice_to_vec};
use vstd::string::StringExecFns;

verus! {

/// The version of the layout that is written; later versions are not read.
pub const VERSION: u8 = 2;

/// The number of bytes in front of the data.
pub const HEADER_LEN: usize = 13;

/// The magic number at the start of a stored share: the bytes of `SHS1`.
pub open spec fn magic() -> Seq<u8> {
    seq![0x53u8, 0x48u8, 0x53u8, 0x31u8]
}

/// The prefix of a stored share's name: the bytes of `share_`.
pub open spec fn name_prefix() -> Seq<u8> {
    seq![0x73u8, 0x68u8, 0x61u8, 0x72u8, 0x65u8, 0x5fu8]
}

/// The ASCII digit for a value below ten.
pub open spec fn digit(d: u8) -> u8 {
    (0x30 + d) as u8
}

/// The name under which the share with the given index is stored: `share_`
/// and the index in three decimal digits.
pub open spec fn file_name(index: u8) -> Seq<u8> {
    name_prefix() + seq![digit(index / 100), digit((index / 10) % 10), digit(index % 10)]
}

/// The number that a string of decimal digits stands for.
pub open spec fn decimal_value(digits: Seq<u8>) -> nat
    decreases digits.len(),
{
    if digits.len() == 0 {
        0
    } else {
        decimal_value(digits.drop_last()) * 10 + (digits.last() - 0x30) as nat
    }
}

/// Whether every byte is an ASCII digit.
pub open spec fn all_digits(digits: Seq<u8>) -> bool {
    forall|i: int| 0 <= i < digits.len() ==> 0x30 <= #[trigger] digits[i] <= 0x39
}

/// The index that a name stands for, if it is the name of a stored share:
/// `share_`, then an optional plus sign, then one or more decimal digits
/// whose value is at most 255.
pub open spec fn parsed_name(name: Seq<u8>) -> Option<u8> {
    if name.len() < 6 || name.subrange(0, 6) != name_prefix() {
        None
    } else {
        let rest = name.subrange(6, name.len() as int);
        let digits = if rest.len() > 0 && rest[0] == 0x2b {
            rest.subrange(1, rest.len() as int)
        } else {
            rest
        };
        if digits.len() > 0 && all_digits(digits) && decimal_value(digits) <= 255 {
            Some(decimal_value(digits) as u8)
        } else {
            None
        }
    }
}

/// The bytes that are stored for a share.
pub open spec fn encoded(share: ShareModel) -> Seq<u8> {
    magic() + seq![
        VERSION,
        flags_byte(share.integrity_check, share.compression),
        share.index,
        share.threshold,
        share.total_shares,
    ] + spec_u32_to_le_bytes(share.data.len() as u32) + share.data
}

/// The share that stored bytes hold, once they have passed the checks.
pub open spec fn stored_share(bytes: Seq<u8>) -> ShareModel {
    ShareModel {
        index: bytes[6],
        data: bytes.subrange(
            HEADER_LEN as int,
            HEADER_LEN + spec_u32_from_le_bytes(bytes.subrange(9, 13)) as int,
        ),
        threshold: bytes[7],
        total_shares: bytes[8],
        integrity_check: flag_integrity(bytes[5]),
        compression: flag_compression(bytes[5]),
    }
}

/// Which results reading stored bytes as the share with the given index may
/// give. The bytes are read front to back, and the first thing amiss decides:
/// bytes that end too early give an I/O error; a wrong magic number, a later
/// version or another index give a format error. What follows the data is
/// not looked at.
pub open spec fn decode_allows(
    bytes: Seq<u8>,
    index: u8,
    r: Result<ShareModel, ShamirError>,
) -> bool {
    if bytes.len() < 4 {
        r matches Err(ShamirError::IoError(_))
    } else if bytes.subrange(0, 4) != magic() {
        r == Err::<ShareModel, ShamirError>(ShamirError::InvalidShareFormat)
    } else if bytes.len() < 5 {
        r matches Err(ShamirError::IoError(_))
    } else if bytes[4] > VERSION {
        r == Err::<ShareModel, ShamirError>(ShamirError::InvalidShareFormat)
    } else if bytes.len() < 9 {
        r matches Err(ShamirError::IoError(_))
    } else if bytes[6] != index {
        r == Err::<ShareModel, ShamirError>(ShamirError::InvalidShareFormat)
    } else if bytes.len() < HEADER_LEN || bytes.len() < HEADER_LEN + spec_u32_from_le_bytes(
        bytes.subrange(9, 13),
    ) {
        r matches Err(ShamirError::IoError(_))
    } else {
        r == Ok::<ShareModel, ShamirError>(stored_share(bytes))
    }
}

/// A result with the share of its success taken as a mathematical value.
pub open spec fn share_outcome(r: Result<Share, ShamirError>) -> Result<ShareModel, ShamirError> {
    match r {
        Ok(share) => Ok(share@),
        Err(e) => Err(e),
    }
}

/// The bytes to store for a share. A share whose data is too long for the
/// length field is refused.
pub fn encode_share(share: &Share) -> (r: Result<Vec<u8>, ShamirError>)
    ensures
        share@.data.len() <= u32::MAX ==> (r matches Ok(bytes) && bytes@ == encoded(share@)),
        share@.data.len() > u32::MAX ==> (r matches Err(ShamirError::StorageError(_))),
{
    if share.data.len() > u32::MAX as usize {
        return Err(ShamirError::StorageError(String::from_str("Share data too long to store")));
    }
    let mut bytes: Vec<u8> = Vec::new();
    bytes.push(0x53);
    bytes.push(0x48);
    bytes.push(0x53);
    bytes.push(0x31);
    bytes.push(VERSION);
    bytes.push(encode_flags(share.integrity_check, share.compression));
    bytes.push(share.index);
    bytes.push(share.threshold);
    bytes.push(share.total_shares);
    let len = share.data.len() as u32;
    let prefix = u32_to_le_bytes(len);
    bytes.extend_from_slice(prefix.as_slice());
    bytes.extend_from_slice(share.data.as_slice());
    assert(bytes@ =~= encoded(share@));
    Ok(bytes)
}

/// Reads stored bytes as the share with the given index.
pub fn decode_share(bytes: &[u8], index: u8) -> (r: Result<Share, ShamirError>)
    ensures
        decode_allows(bytes@, index, share_outcome(r)),
{
    if bytes.len() < 4 {
        return Err(ShamirError::IoError(unexpected_eof()));
    }
    if !(bytes[0] == 0x53 && bytes[1] == 0x48 && bytes[2] == 0x53 && bytes[3] == 0x31) {
        assert(bytes@.subrange(0, 4) != magic()) by {
            let head = bytes@.subrange(0, 4);
            assert(head[0] == bytes@[0] && head[1] == bytes@[1] && head[2] == bytes@[2] && head[3]
                == bytes@[3]);
        }
        return Err(ShamirError::InvalidShareFormat);
    }
    assert(bytes@.subrange(0, 4) =~= magic());
    if bytes.len() < 5 {
        return Err(ShamirError::IoError(unexpected_eof()));
    }
    if bytes[4] > VERSION {
        return Err(ShamirError::InvalidShareFormat);
    }
    if bytes.len() < 9 {
        return Err(ShamirError::IoError(unexpected_eof()));
    }
    let (integrity_check, compression) = decode_flags(bytes[5]);
    let stored_index = bytes[6];
    let threshold = bytes[7];
    let total_shares = bytes[8];
    if stored_index != index {
        return Err(ShamirError::InvalidShareFormat);
    }
    if bytes.len() < HEADER_LEN {
        return Err(ShamirError::IoError(unexpected_eof()));
    }
    let len = u32_from_le_bytes(slice_subrange(bytes, 9, 13)) as usize;
    if bytes.len() - HEADER_LEN < len {
        return Err(ShamirError::IoError(unexpected_eof()));
    }
    let data = slice_to_vec(slice_subrange(bytes, HEADER_LEN, HEADER_LEN + len));
    Ok(Share { index, data, threshold, total_shares, integrity_check, compression })
}

/// What was encoded is decoded to the same share, under the share's index and no other.
pub proof fn law_storage_round_trip(
    share: ShareModel,
    index: u8,
    r: Result<ShareModel, ShamirError>,
)
    requires
        share.data.len() <= u32::MAX,
        decode_allows(encoded(share), index, r),
    ensures
        index == share.index ==> r == Ok::<ShareModel, ShamirError>(share),
        index != share.index ==> r == Err::<ShareModel, ShamirError>(
            ShamirError::InvalidShareFormat,
        ),
{
    let bytes = encoded(share);
    lemma_auto_spec_u32_to_from_le_bytes();
    lemma_flags_round_trip(share.integrity_check, share.compression);
    let prefix = spec_u32_to_le_bytes(share.data.len() as u32);
    assert(bytes.subrange(0, 4) =~= magic());
    assert(bytes.subrange(9, 13) =~= prefix);
    assert(bytes.subrange(HEADER_LEN as int, HEADER_LEN + share.data.len()) =~= share.data);
    assert(bytes[4] == VERSION);
    assert(bytes[5] == flags_byte(share.integrity_check, share.compression));
    assert(bytes[6] == share.index);
}

/// The name under which the share with the given index is stored.
pub fn share_file_name(index: u8) -> (name: Vec<u8>)
    ensures
        name@ == file_name(index),
{
    let mut name: Vec<u8> = Vec::with_capacity(9);
    name.push(0x73);
    name.push(0x68);
    name.push(0x61);
    name.push(0x72);
    name.push(0x65);
    name.push(0x5f);
    name.push(0x30 + index / 100);
    name.push(0x30 + (index / 10) % 10);
    name.push(0x30 + index % 10);
    assert(name@ =~= file_name(index));
    name
}

/// The index that a name stands for, if it is the name of a stored share.
#[verifier::loop_isolation(false)]
pub fn parse_share_file_name(name: &[u8]) -> (r: Option<u8>)
    ensures
        r == parsed_name(name@),
{
    if name.len() < 6 {
        return None;
    }
    if !(name[0] == 0x73 && name[1] == 0x68 && name[2] == 0x61 && name[3] == 0x72 && name[4]
        == 0x65 && name[5] == 0x5f) {
        assert(name@.subrange(0, 6) != name_prefix()) by {
            let head = name@.subrange(0, 6);
            assert(head[0] == name@[0] && head[1] == name@[1] && head[2] == name@[2] && head[3]
                == name@[3] && head[4] == name@[4] && head[5] == name@[5]);
        }
        return None;
    }
    assert(name@.subrange(0, 6) =~= name_prefix());
    let ghost rest = name@.subrange(6, name@.len() as int);
    let start: usize = if name.len() > 6 && name[6] == 0x2b {
        7
    } else {
        6
    };
    let ghost digits = name@.subrange(start as int, name@.len() as int);
    assert(digits =~= if rest.len() > 0 && rest[0] == 0x2b {
        rest.subrange(1, rest.len() as int)
    } else {
        rest
    });
    if start == name.len() {
        return None;
    }
    let mut value: u16 = 0;
    let mut i: usize = start;
    assert(digits.subrange(0, 0) =~= Seq::<u8>::empty());
    while i < name.len()
        invariant
            start <= i <= name.len(),
            digits == name@.subrange(start as int, name@.len() as int),
            all_digits(digits.subrange(0, i - start)),
            value == decimal_value(digits.subrange(0, i - start)),
            value <= 255,
        decreases name.len() - i,
    {
        let b = name[i];
        let ghost seen = digits.subrange(0, i - start);
        let ghost more = digits.subrange(0, i - start + 1);
        proof {
            assert(more.drop_last() =~= seen);
            assert(more.last() == b);
        }
        if b < 0x30 || b > 0x39 {
            assert(!all_digits(digits)) by {
                assert(digits[i - start] == b);
            }
            return None;
        }
        let next = value * 10 + (b - 0x30) as u16;
        if next > 255 {
            proof {
                if all_digits(digits) {
                    lemma_decimal_value_grows(digits, (i - start + 1) as nat);
                }
            }
            return None;
        }
        value = next;
        i += 1;
    }
    assert(digits.subrange(0, i - start) =~= digits);
    Some(value as u8)
}

/// The value of a string of digits is at least that of each of its prefixes.
pub proof fn lemma_decimal_value_grows(digits: Seq<u8>, k: nat)
    requires
        k <= digits.len(),
        all_digits(digits),
    ensures
        decimal_value(digits.subrange(0, k as int)) <= decimal_value(digits),
    decreases digits.len() - k,
{
    if k == digits.len() {
        assert(digits.subrange(0, k as int) =~= digits);
    } else {
        lemma_decimal_value_grows(digits, k + 1);
        let more = digits.subrange(0, (k + 1) as int);
        assert(more.drop_last() =~= digits.subrange(0, k as int));
        assert(more.last() == digits[k as int]);
    }
}

/// A store of shares, by index. Implement this to keep shares somewhere.
pub trait ShareStore {
    /// Stores a share under its index.
    fn store_share(&mut self, share: &Share) -> Result<(), ShamirError>;

    /// Loads the share with the given index.
    fn load_share(&self, index: u8) -> Result<Share, ShamirError>;

    /// The indices of the stored shares, in ascending order.
    fn list_shares(&self) -> Result<Vec<u8>, ShamirError>;

    /// Deletes the share with the given index.
    fn delete_share(&mut self, index: u8) -> Result<(), ShamirError>;
}

/// The indices below `m` under which something is stored, in ascending order.
pub open spec fn stored_indices(slots: Seq<Option<Seq<u8>>>, m: nat) -> Seq<u8>
    decreases m,
{
    if m == 0 {
        Seq::empty()
    } else if slots[m - 1] is Some {
        stored_indices(slots, (m - 1) as nat).push((m - 1) as u8)
    } else {
        stored_indices(slots, (m - 1) as nat)
    }
}

/// A store that keeps the stored bytes of each share in memory, by index.
pub struct MemoryShareStore {
    slots: Vec<Option<Vec<u8>>>,
}

impl View for MemoryShareStore {
    type V = Seq<Option<Seq<u8>>>;

    closed spec fn view(&self) -> Seq<Option<Seq<u8>>> {
        Seq::new(
            self.slots@.len(),
            |i: int|
                match self.slots@[i] {
                    Some(bytes) => Some(bytes@),
                    None => None,
                },
        )
    }
}

impl MemoryShareStore {
    /// There is a slot for every index.
    pub open spec fn wf(&self) -> bool {
        self@.len() == 256
    }

    /// An empty store.
    pub fn new() -> (store: Self)
        ensures
            store.wf(),
            forall|i: int| 0 <= i < 256 ==> store@[i] is None,
    {
        let mut slots: Vec<Option<Vec<u8>>> = Vec::with_capacity(256);
        let mut i: usize = 0;
        while i < 256
            invariant
                i <= 256,
                slots@.len() == i,
                forall|k: int| 0 <= k < i ==> slots@[k] is None,
            decreases 256 - i,
        {
            slots.push(None);
            i += 1;
        }
        MemoryShareStore { slots }
    }
}

impl ShareStore for MemoryShareStore {
    /// Stores the share's bytes under its index, in place of what was there.
    fn store_share(&mut self, share: &Share) -> (r: Result<(), ShamirError>)
        ensures
            old(self).wf() ==> final(self).wf(),
            old(self).wf() && share@.data.len() <= u32::MAX ==> r is Ok && final(self)@
                == old(self)@.update(share@.index as int, Some(encoded(share@))),
            !old(self).wf() || share@.data.len() > u32::MAX ==> (
            r matches Err(ShamirError::StorageError(_))) && final(self)@ == old(self)@,
    {
        if self.slots.len() != 256 {
            return Err(ShamirError::StorageError(String::from_str("The store has no slots")));
        }
        let bytes = match encode_share(share) {
            Ok(bytes) => bytes,
            Err(e) => {
                return Err(e);
            },
        };
        let index = share.index as usize;
        self.slots[index] = Some(bytes);
        assert(self@ =~= old(self)@.update(share@.index as int, Some(encoded(share@))));
        Ok(())
    }

    /// Loads the share stored under the index: an index error where nothing is
    /// stored, else what reading the stored bytes gives.
    fn load_share(&self, index: u8) -> (r: Result<Share, ShamirError>)
        ensures
            self.wf() ==> match self@[index as int] {
                None => r matches Err(e) && e == ShamirError::InvalidShareIndex(index),
                Some(bytes) => decode_allows(bytes, index, share_outcome(r)),
            },
    {
        if self.slots.len() != 256 {
            return Err(ShamirError::StorageError(String::from_str("The store has no slots")));
        }
        match &self.slots[index as usize] {
            Some(bytes) => decode_share(bytes.as_slice(), index),
            None => Err(ShamirError::InvalidShareIndex(index)),
        }
    }

    /// The indices under which something is stored, in ascending order.
    fn list_shares(&self) -> (r: Result<Vec<u8>, ShamirError>)
        ensures
            self.wf() ==> (r matches Ok(indices) && indices@ == stored_indices(self@, 256)),
    {
        if self.slots.len() != 256 {
            return Err(ShamirError::StorageError(String::from_str("The store has no slots")));
        }
        let mut indices: Vec<u8> = Vec::new();
        let mut i: usize = 0;
        while i < 256
            invariant
                i <= 256,
                self.slots@.len() == 256,
                indices@ == stored_indices(self@, i as nat),
            decreases 256 - i,
        {
            if self.slots[i].is_some() {
                indices.push(i as u8);
            }
            i += 1;
        }
        Ok(indices)
    }

    /// Deletes what is stored under the index: an index error where nothing is.
    fn delete_share(&mut self, index: u8) -> (r: Result<(), ShamirError>)
        ensures
            old(self).wf() ==> final(self).wf() && match old(self)@[index as int] {
                None => (r matches Err(e) && e == ShamirError::InvalidShareIndex(index))
                    && final(self)@ == old(self)@,
                Some(_) => r is Ok && final(self)@ == old(self)@.update(index as int, None),
            },
    {
        if self.slots.len() != 256 {
            return Err(ShamirError::StorageError(String::from_str("The store has no slots")));
        }
        if self.slots[index as usize].is_none() {
            return Err(ShamirError::InvalidShareIndex(index));
        }
        self.slots[index as usize] = None;
        assert(self@ =~= old(self)@.update(index as int, None));
        Ok(())
    }
}

/// What was stored is loaded again: after a share was stored, loading its
/// index gives the share back.
pub proof fn law_store_then_load(
    before: Seq<Option<Seq<u8>>>,
    after: Seq<Option<Seq<u8>>>,
    share: ShareModel,
    r: Result<ShareModel, ShamirError>,
)
    requires
        before.len() == 256,
        share.data.len() <= u32::MAX,
        after == before.update(share.index as int, Some(encoded(share))),
        match after[share.index as int] {
            None => r == Err::<ShareModel, ShamirError>(
                ShamirError::InvalidShareIndex(share.index),
            ),
            Some(bytes) => decode_allows(bytes, share.index, r),
        },
    ensures
        r == Ok::<ShareModel, ShamirError>(share),
{
    law_storage_round_trip(share, share.index, r);
}

} // verus!
