//! Shares, and what a set of shares says mathematically.

use crate::error::ShamirError;
use crate::outside::wipe;
use crate::polynomial::{all_distinct, all_nonzero, interpolate_at_zero};
use vstd::prelude::*;

verus! {

/// One share: the values at `index` of the polynomials that hide the secret,
/// one per byte, with the parameters that the reconstruction needs.
#[derive(Debug, Clone, PartialEq)]
pub struct Share {
    /// The x-coordinate, `1..=255` in every share that a split makes.
    pub index: u8,
    /// The y-coordinates, one per byte of the prepared secret.
    pub data: Vec<u8>,
    /// How many shares a reconstruction needs.
    pub threshold: u8,
    /// How many shares were made.
    pub total_shares: u8,
    /// Whether a hash of the secret precedes it in the shared data.
    pub integrity_check: bool,
    /// Whether the secret was compressed before it was shared.
    pub compression: bool,
}

/// A share as a mathematical value.
pub ghost struct ShareModel {
    pub index: u8,
    pub data: Seq<u8>,
    pub threshold: u8,
    pub total_shares: u8,
    pub integrity_check: bool,
    pub compression: bool,
}

impl View for Share {
    type V = ShareModel;

    open spec fn view(&self) -> ShareModel {
        ShareModel {
            index: self.index,
            data: self.data@,
            threshold: self.threshold,
            total_shares: self.total_shares,
            integrity_check: self.integrity_check,
            compression: self.compression,
        }
    }
}

/// The share that is left when a share has been wiped: nothing.
pub open spec fn wiped_share() -> ShareModel {
    ShareModel {
        index: 0,
        data: Seq::empty(),
        threshold: 0,
        total_shares: 0,
        integrity_check: false,
        compression: false,
    }
}

impl Share {
    /// Overwrites the share's data with zeros and clears every field.
    pub fn zeroize(&mut self)
        ensures
            final(self)@ == wiped_share(),
    {
        wipe(&mut self.data);
        self.index = 0;
        self.threshold = 0;
        self.total_shares = 0;
        self.integrity_check = false;
        self.compression = false;
    }

    /// A copy of the share.
    pub fn duplicate(&self) -> (r: Share)
        ensures
            r@ == self@,
    {
        Share {
            index: self.index,
            data: self.data.clone(),
            threshold: self.threshold,
            total_shares: self.total_shares,
            integrity_check: self.integrity_check,
            compression: self.compression,
        }
    }
}

/// A share's index and a borrowed view of its data, for reconstruction
/// without copying.
#[derive(Debug, Clone, Copy)]
pub struct ShareView<'a> {
    /// The x-coordinate.
    pub index: u8,
    /// The y-coordinates.
    pub data: &'a [u8],
}

/// The models of a sequence of shares.
pub open spec fn share_models(shares: Seq<Share>) -> Seq<ShareModel> {
    Seq::new(shares.len(), |i: int| shares[i]@)
}

/// The x-coordinates of a sequence of shares.
pub open spec fn indices_of(shares: Seq<ShareModel>) -> Seq<u8> {
    Seq::new(shares.len(), |i: int| shares[i].index)
}

/// The data of a sequence of shares.
pub open spec fn data_of(shares: Seq<ShareModel>) -> Seq<Seq<u8>> {
    Seq::new(shares.len(), |i: int| shares[i].data)
}

/// The x-coordinates of a sequence of share views.
pub open spec fn view_indices(views: Seq<ShareView>) -> Seq<u8> {
    Seq::new(views.len(), |i: int| views[i].index)
}

/// The data of a sequence of share views.
pub open spec fn view_data(views: Seq<ShareView>) -> Seq<Seq<u8>> {
    Seq::new(views.len(), |i: int| views[i].data@)
}

/// Byte `k` of each entry: the y-coordinates of the points of polynomial `k`.
pub open spec fn column(data: Seq<Seq<u8>>, k: int) -> Seq<u8> {
    Seq::new(data.len(), |i: int| data[i][k])
}

/// The shares agree in data length and in both flags with the first.
pub open spec fn consistent(shares: Seq<ShareModel>) -> bool {
    forall|i: int|
        0 <= i < shares.len() ==> (#[trigger] shares[i]).data.len() == shares[0].data.len()
            && shares[i].integrity_check == shares[0].integrity_check && shares[i].compression
            == shares[0].compression
}

/// All the entries have the length of the first.
pub open spec fn same_length(data: Seq<Seq<u8>>) -> bool {
    forall|i: int| 0 <= i < data.len() ==> (#[trigger] data[i]).len() == data[0].len()
}

/// The x-coordinates can be interpolated through: none occurs twice, none is zero.
pub open spec fn usable_indices(xs: Seq<u8>) -> bool {
    all_distinct(xs) && all_nonzero(xs)
}

/// The bytes that Lagrange interpolation at zero recovers from the points
/// `(xs[i], data[i][k])`: byte `k` is the value at zero of the polynomial
/// through the points of column `k`.
pub open spec fn recovered(xs: Seq<u8>, data: Seq<Seq<u8>>) -> Seq<u8> {
    Seq::new(data[0].len(), |k: int| interpolate_at_zero(xs, column(data, k)))
}

/// The bytes that interpolation recovers from a set of shares.
pub open spec fn recovered_bytes(shares: Seq<ShareModel>) -> Seq<u8> {
    recovered(indices_of(shares), data_of(shares))
}

/// The error, if any, with which a set of shares is refused before any payload
/// is looked at, in the order of the checks: no shares; fewer than the first
/// share's threshold; disagreeing lengths or flags; duplicate or zero indices.
pub open spec fn refusal(shares: Seq<ShareModel>) -> Option<ShamirError> {
    if shares.len() == 0 {
        Some(ShamirError::InsufficientShares { needed: 1, got: 0 })
    } else if shares.len() < shares[0].threshold {
        Some(
            ShamirError::InsufficientShares {
                needed: shares[0].threshold,
                got: shares.len() as u8,
            },
        )
    } else if !consistent(shares) {
        Some(ShamirError::InconsistentShareLength)
    } else if !usable_indices(indices_of(shares)) {
        Some(ShamirError::InvalidShareFormat)
    } else {
        None
    }
}

} // verus!
