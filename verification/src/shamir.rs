//! The scheme itself: splitting a secret into shares, lazily or all at once,
//! reconstructing it from enough of them, and refreshing shares.

use crate::config::Config;
use crate::error::ShamirError;
use crate::finite_field::FiniteField;
use crate::interpolation::{lemma_denom_nonzero, lemma_denominator_is_denom};
use crate::outside::{fill_random, seeded_rng, wipe};
use crate::payload::{outcome, prepare, prepared, unpack, unpack_allows};
use crate::polynomial::{
    all_distinct, all_nonzero, denominator_upto, interpolate_at_zero, lagrange_coefficient,
    lagrange_coefficients, product_upto, weighted_sum,
};
use crate::share::{
    column, consistent, data_of, indices_of, recovered, recovered_bytes, refusal, same_length,
    share_models, usable_indices, view_data, view_indices, Share, ShareModel, ShareView,
};
use crate::sharing::{
    dealt_share, dealt_shares, evaluate_at, evaluate_share, evaluate_zero_share, fits, xor_bytes,
    zeros,
};
use rand_chacha::ChaCha20Rng;
use vstd::prelude::*;
use vstd::string::StringExecFns;

verus! {

/// The field elements as bytes.
pub open spec fn bytes_of(elements: Seq<FiniteField>) -> Seq<u8> {
    Seq::new(elements.len(), |i: int| elements[i].0)
}

/// Whether some index occurs twice.
fn has_duplicates(xs: &Vec<u8>) -> (r: bool)
    ensures
        r <==> !all_distinct(xs@),
{
    let n = xs.len();
    let mut i: usize = 0;
    while i < n
        invariant
            i <= n,
            n == xs.len(),
            forall|a: int, b: int| 0 <= a < i && a < b < n ==> xs@[a] != xs@[b],
        decreases n - i,
    {
        let mut j: usize = i + 1;
        while j < n
            invariant
                i < j <= n,
                n == xs.len(),
                forall|a: int, b: int| 0 <= a < i && a < b < n ==> xs@[a] != xs@[b],
                forall|b: int| i < b < j ==> xs@[i as int] != xs@[b],
            decreases n - j,
        {
            if xs[i] == xs[j] {
                return true;
            }
            j += 1;
        }
        i += 1;
    }
    false
}

/// Whether some index is zero.
fn has_zero(xs: &Vec<u8>) -> (r: bool)
    ensures
        r <==> !all_nonzero(xs@),
{
    let mut i: usize = 0;
    while i < xs.len()
        invariant
            i <= xs.len(),
            forall|a: int| 0 <= a < i ==> xs@[a] != 0,
        decreases xs.len() - i,
    {
        if xs[i] == 0 {
            return true;
        }
        i += 1;
    }
    false
}

/// The Lagrange coefficients for interpolation at zero through the given
/// x-coordinates, which must be pairwise distinct and nonzero.
pub fn lagrange_at_zero(xs: &Vec<u8>) -> (r: Result<Vec<FiniteField>, ShamirError>)
    ensures
        usable_indices(xs@) <==> r is Ok,
        r matches Ok(ls) ==> usable_indices(xs@) && ls@.len() == xs@.len() && bytes_of(ls@)
            == lagrange_coefficients(xs@),
        r matches Err(e) ==> e == ShamirError::InvalidShareFormat,
{
    if has_duplicates(xs) {
        return Err(ShamirError::InvalidShareFormat);
    }
    if has_zero(xs) {
        return Err(ShamirError::InvalidShareFormat);
    }
    let n = xs.len();
    let mut p = FiniteField::new(1);
    let mut m: usize = 0;
    while m < n
        invariant
            m <= n,
            n == xs.len(),
            p.0 == product_upto(xs@, m as nat),
        decreases n - m,
    {
        p = p * FiniteField::new(xs[m]);
        m += 1;
    }
    let mut coefficients: Vec<FiniteField> = Vec::with_capacity(n);
    let mut i: usize = 0;
    while i < n
        invariant
            i <= n,
            n == xs.len(),
            usable_indices(xs@),
            p.0 == product_upto(xs@, n as nat),
            coefficients@.len() == i,
            forall|k: int| 0 <= k < i ==> coefficients@[k].0 == lagrange_coefficient(xs@, k),
        decreases n - i,
    {
        let x_i = FiniteField::new(xs[i]);
        let x_inv = match x_i.inverse() {
            Some(inv) => inv,
            None => {
                return Err(ShamirError::InvalidShareFormat);
            },
        };
        let numerator = p * x_inv;
        let mut denominator = FiniteField::new(1);
        let mut j: usize = 0;
        while j < n
            invariant
                j <= n,
                i < n,
                n == xs.len(),
                x_i.0 == xs@[i as int],
                denominator.0 == denominator_upto(xs@, i as int, j as nat),
            decreases n - j,
        {
            if i != j {
                denominator = denominator * (x_i + FiniteField::new(xs[j]));
            }
            j += 1;
        }
        proof {
            lemma_denominator_is_denom(xs@, i as int, n as nat);
            lemma_denom_nonzero(xs@, xs@[i as int], i as int, n as nat);
        }
        let coefficient = match denominator.inverse() {
            Some(inv) => numerator * inv,
            None => {
                return Err(ShamirError::InvalidShareFormat);
            },
        };
        coefficients.push(coefficient);
        i += 1;
    }
    assert(bytes_of(coefficients@) =~= lagrange_coefficients(xs@));
    Ok(coefficients)
}

/// One recovered byte: the sum over the shares of coefficient times the
/// share's byte at position `k`.
pub fn interpolate_byte(views: &[ShareView], coefficients: &Vec<FiniteField>, k: usize) -> (y: u8)
    requires
        coefficients.len() == views.len(),
        forall|i: int| 0 <= i < views.len() ==> k < (#[trigger] views[i]).data@.len(),
    ensures
        y == weighted_sum(
            bytes_of(coefficients@),
            column(view_data(views@), k as int),
            views.len() as nat,
        ),
{
    let ghost ws = bytes_of(coefficients@);
    let ghost ys = column(view_data(views@), k as int);
    let mut acc = FiniteField::new(0);
    let mut i: usize = 0;
    while i < views.len()
        invariant
            i <= views.len(),
            coefficients.len() == views.len(),
            forall|i: int| 0 <= i < views.len() ==> k < (#[trigger] views[i]).data@.len(),
            ws == bytes_of(coefficients@),
            ys == column(view_data(views@), k as int),
            acc.0 == weighted_sum(ws, ys, i as nat),
        decreases views.len() - i,
    {
        let view = &views[i];
        assert(k < views[i as int].data@.len());
        acc = acc + coefficients[i] * FiniteField::new(view.data[k]);
        i += 1;
    }
    acc.0
}

/// The error, if any, with which a chunk's points are refused: no points;
/// data of different lengths; duplicate or zero x-coordinates.
pub open spec fn chunk_refusal(xs: Seq<u8>, data: Seq<Seq<u8>>) -> Option<ShamirError> {
    if data.len() == 0 {
        Some(ShamirError::InsufficientShares { needed: 1, got: 0 })
    } else if !same_length(data) {
        Some(ShamirError::InconsistentShareLength)
    } else if !usable_indices(xs) {
        Some(ShamirError::InvalidShareFormat)
    } else {
        None
    }
}

/// Which results a reconstruction from these shares may give: the refusal, if
/// the shares are refused; else what unpacking the recovered bytes may give.
pub open spec fn reconstruct_allows(
    shares: Seq<ShareModel>,
    r: Result<Seq<u8>, ShamirError>,
) -> bool {
    match refusal(shares) {
        Some(e) => r == Err::<Seq<u8>, ShamirError>(e),
        None => unpack_allows(
            recovered_bytes(shares),
            shares[0].integrity_check,
            shares[0].compression,
            r,
        ),
    }
}

/// The parameters of a scheme.
pub ghost struct SchemeModel {
    pub total_shares: u8,
    pub threshold: u8,
    pub config: Config,
}

impl SchemeModel {
    /// `1 <= threshold <= total_shares`, and a valid configuration.
    pub open spec fn valid(&self) -> bool {
        1 <= self.threshold <= self.total_shares && self.config.is_valid()
    }

    /// The data that is split for a secret under this scheme.
    pub open spec fn prepared(&self, secret: Seq<u8>) -> Seq<u8> {
        prepared(secret, self.config.integrity_check, self.config.compression)
    }

    /// Whether `shares` are the scheme's shares of `data` under some coefficients.
    pub open spec fn splits_into(&self, shares: Seq<ShareModel>, data: Seq<u8>) -> bool {
        exists|coefficients: Seq<u8>| #[trigger] self.is_split(shares, data, coefficients)
    }

    /// Whether `shares` are the scheme's shares of `data` under the given coefficients.
    pub open spec fn is_split(
        &self,
        shares: Seq<ShareModel>,
        data: Seq<u8>,
        coefficients: Seq<u8>,
    ) -> bool {
        &&& coefficients.len() == data.len() * (self.threshold - 1)
        &&& shares == dealt_shares(
            data,
            coefficients,
            self.threshold,
            self.total_shares,
            self.config.integrity_check,
            self.config.compression,
            1,
            self.total_shares as nat,
        )
    }
}

/// Shamir's scheme with its parameters and its own random generator, which
/// advances with every split.
#[derive(Debug)]
pub struct ShamirShare {
    total_shares: u8,
    threshold: u8,
    config: Config,
    rng: ChaCha20Rng,
}

/// Collects the parameters of a scheme and checks them on `build`.
#[derive(Debug)]
pub struct ShamirShareBuilder {
    total_shares: u8,
    threshold: u8,
    config: Config,
}

impl View for ShamirShareBuilder {
    type V = SchemeModel;

    closed spec fn view(&self) -> SchemeModel {
        SchemeModel {
            total_shares: self.total_shares,
            threshold: self.threshold,
            config: self.config,
        }
    }
}

impl ShamirShareBuilder {
    /// A builder with the given numbers and the default configuration.
    pub fn new(total_shares: u8, threshold: u8) -> (r: Self)
        ensures
            r@.total_shares == total_shares,
            r@.threshold == threshold,
            r@.config.chunk_size == crate::config::DEFAULT_CHUNK_SIZE,
            r@.config.mode == crate::config::SplitMode::Sequential,
            !r@.config.compression,
            r@.config.integrity_check,
    {
        Self { total_shares, threshold, config: Config::new() }
    }

    /// The same builder with another configuration.
    pub fn with_config(self, config: Config) -> (r: Self)
        ensures
            r@.total_shares == self@.total_shares,
            r@.threshold == self@.threshold,
            r@.config == config,
    {
        let mut builder = self;
        builder.config = config;
        builder
    }

    /// Checks the parameters and makes the scheme, seeding its generator from
    /// the operating system. The checks come in this order: no shares; a zero
    /// threshold; a threshold above the number of shares; a chunk size of zero.
    /// With valid parameters only the seeding can fail.
    pub fn build(self) -> (r: Result<ShamirShare, ShamirError>)
        ensures
            self@.total_shares == 0 ==> (r matches Err(e) && e == ShamirError::InvalidShareCount(
                0,
            )),
            self@.total_shares != 0 && self@.threshold == 0 ==> (r matches Err(e) && e
                == ShamirError::InvalidThreshold(0)),
            self@.total_shares != 0 && self@.threshold > self@.total_shares ==> (r matches Err(e)
                && e == ShamirError::ThresholdTooLarge {
                threshold: self@.threshold,
                total_shares: self@.total_shares,
            }),
            1 <= self@.threshold <= self@.total_shares && !self@.config.is_valid() ==> (
            r matches Err(ShamirError::InvalidConfig(msg)) && msg@ == "Chunk size cannot be zero"@),
            self@.valid() ==> (r matches Ok(scheme) && scheme@ == self@ && scheme.wf()) || (
            r matches Err(ShamirError::IoError(_))),
    {
        if self.total_shares == 0 {
            return Err(ShamirError::InvalidShareCount(self.total_shares));
        }
        if self.threshold == 0 {
            return Err(ShamirError::InvalidThreshold(self.threshold));
        }
        if self.threshold > self.total_shares {
            return Err(
                ShamirError::ThresholdTooLarge {
                    threshold: self.threshold,
                    total_shares: self.total_shares,
                },
            );
        }
        match self.config.validate() {
            Ok(()) => {},
            Err(e) => {
                return Err(e);
            },
        }
        match seeded_rng() {
            Ok(rng) => Ok(
                ShamirShare {
                    total_shares: self.total_shares,
                    threshold: self.threshold,
                    config: self.config,
                    rng,
                },
            ),
            Err(e) => Err(ShamirError::IoError(e)),
        }
    }
}

/// What a dealer holds.
pub ghost struct DealerModel {
    pub data: Seq<u8>,
    pub coefficients: Seq<u8>,
    pub next_index: u8,
    pub threshold: u8,
    pub total_shares: u8,
    pub integrity_check: bool,
    pub compression: bool,
}

impl DealerModel {
    /// The share with index `x`.
    pub open spec fn share_at(&self, x: u8) -> ShareModel {
        dealt_share(
            self.data,
            self.coefficients,
            self.threshold,
            self.total_shares,
            self.integrity_check,
            self.compression,
            x,
        )
    }

    /// How many shares are still to come: one for each index from the next up to 255.
    pub open spec fn remaining(&self) -> nat {
        if self.next_index == 0 {
            0
        } else {
            (256 - self.next_index) as nat
        }
    }

    /// The dealer after `count` more shares, of which it has at least that many.
    pub open spec fn advanced(&self, count: nat) -> DealerModel {
        DealerModel {
            next_index: if self.next_index + count >= 256 {
                0
            } else {
                (self.next_index + count) as u8
            },
            ..*self
        }
    }

    /// The next `count` shares.
    pub open spec fn next_shares(&self, count: nat) -> Seq<ShareModel> {
        dealt_shares(
            self.data,
            self.coefficients,
            self.threshold,
            self.total_shares,
            self.integrity_check,
            self.compression,
            self.next_index,
            count,
        )
    }
}

/// Deals the shares of one split on demand: the coefficients are drawn once,
/// and each share is evaluated when it is asked for, from index 1 up to 255.
pub struct Dealer {
    data: Vec<u8>,
    coefficients: Vec<u8>,
    current_x: u8,
    threshold: u8,
    total_shares: u8,
    integrity_check: bool,
    compression: bool,
}

impl View for Dealer {
    type V = DealerModel;

    closed spec fn view(&self) -> DealerModel {
        DealerModel {
            data: self.data@,
            coefficients: self.coefficients@,
            next_index: self.current_x,
            threshold: self.threshold,
            total_shares: self.total_shares,
            integrity_check: self.integrity_check,
            compression: self.compression,
        }
    }
}

impl Dealer {
    /// There is a threshold, and `threshold - 1` coefficients for each byte of the data.
    pub open spec fn wf(&self) -> bool {
        &&& self@.threshold >= 1
        &&& self@.coefficients.len() == self@.data.len() * (self@.threshold - 1)
    }

    /// Overwrites the data and the coefficients with zeros and clears every
    /// field. The dealer is exhausted afterwards.
    pub fn zeroize(&mut self)
        ensures
            final(self)@ == (DealerModel {
                data: Seq::empty(),
                coefficients: Seq::empty(),
                next_index: 0,
                threshold: 0,
                total_shares: 0,
                integrity_check: false,
                compression: false,
            }),
    {
        wipe(&mut self.data);
        wipe(&mut self.coefficients);
        self.current_x = 0;
        self.threshold = 0;
        self.total_shares = 0;
        self.integrity_check = false;
        self.compression = false;
    }

    /// The next share, or `None` once the indices up to 255 are used up.
    pub fn next(&mut self) -> (r: Option<Share>)
        requires
            old(self).wf(),
        ensures
            final(self).wf(),
            old(self)@.next_index == 0 ==> r is None && final(self)@ == old(self)@,
            old(self)@.next_index != 0 ==> (r matches Some(share) && share@ == old(self)@.share_at(
                old(self)@.next_index,
            )) && final(self)@ == old(self)@.advanced(1),
    {
        if self.current_x == 0 {
            return None;
        }
        let share_data = evaluate_share(
            self.data.as_slice(),
            self.coefficients.as_slice(),
            self.threshold,
            self.current_x,
        );
        let share = Share {
            index: self.current_x,
            data: share_data,
            threshold: self.threshold,
            total_shares: self.total_shares,
            integrity_check: self.integrity_check,
            compression: self.compression,
        };
        self.current_x = self.current_x.wrapping_add(1);
        Some(share)
    }

    /// The number of shares still to come, as lower and upper bound: both exact.
    pub fn size_hint(&self) -> (r: (usize, Option<usize>))
        ensures
            r.0 == self@.remaining(),
            r.1 == Some(r.0),
    {
        let remaining: usize = if self.current_x == 0 {
            0
        } else {
            256 - self.current_x as usize
        };
        (remaining, Some(remaining))
    }

    /// The exact number of shares still to come.
    pub fn len(&self) -> (r: usize)
        ensures
            r == self@.remaining(),
    {
        self.size_hint().0
    }

    /// The next `count` shares, or as many as are left if that is fewer.
    pub fn take(&mut self, count: usize) -> (shares: Vec<Share>)
        requires
            old(self).wf(),
        ensures
            final(self).wf(),
            shares@.len() == if count <= old(self)@.remaining() {
                count as nat
            } else {
                old(self)@.remaining()
            },
            share_models(shares@) == old(self)@.next_shares(shares@.len()),
            final(self)@ == old(self)@.advanced(shares@.len()),
    {
        let mut shares: Vec<Share> = Vec::new();
        let ghost start = self@;
        while shares.len() < count && self.current_x != 0
            invariant
                self.wf(),
                shares@.len() <= count,
                shares@.len() <= start.remaining(),
                self@ == start.advanced(shares@.len()),
                self@.next_index == 0 ==> shares@.len() == start.remaining(),
                share_models(shares@) =~= start.next_shares(shares@.len()),
            decreases count - shares.len(),
        {
            let ghost before = shares@;
            assert(self@.next_index == start.next_index + before.len());
            match self.next() {
                Some(share) => {
                    assert(share@ == start.share_at((start.next_index + before.len()) as u8));
                    shares.push(share);
                },
                None => {},
            }
            proof {
                let now = share_models(shares@);
                let want = start.next_shares(shares@.len());
                assert(now.len() == want.len());
                assert forall|k: int| 0 <= k < now.len() implies now[k] == want[k] by {
                    if k < before.len() {
                        assert(shares@[k] == before[k]);
                        assert(share_models(before)[k] == start.next_shares(before.len())[k]);
                    }
                }
                assert(now =~= want);
            }
        }
        shares
    }
}

/// The byte strings of a vector of byte vectors.
pub open spec fn rows(v: Seq<Vec<u8>>) -> Seq<Seq<u8>> {
    Seq::new(v.len(), |i: int| v[i]@)
}

/// The share data that a split of `data` gives for the indices `1..=n`.
pub open spec fn chunk_shares(data: Seq<u8>, coefficients: Seq<u8>, t: u8, n: u8) -> Seq<Seq<u8>> {
    Seq::new(n as nat, |i: int| evaluate_at(data, coefficients, t as nat, (i + 1) as u8))
}

/// Whether `shares` is a split of the chunk `data` under the given coefficients.
pub open spec fn is_chunk_split(
    shares: Seq<Seq<u8>>,
    data: Seq<u8>,
    coefficients: Seq<u8>,
    t: u8,
    n: u8,
) -> bool {
    coefficients.len() == data.len() * (t - 1) && shares == chunk_shares(data, coefficients, t, n)
}

/// The deltas of a refresh for the given indices: the values of polynomials
/// with zero constant terms.
pub open spec fn zero_shares(xs: Seq<u8>, len: nat, coefficients: Seq<u8>, t: u8) -> Seq<Seq<u8>> {
    Seq::new(xs.len(), |i: int| evaluate_at(zeros(len), coefficients, t as nat, xs[i]))
}

/// Whether `deltas` are the deltas of a refresh under the given coefficients.
pub open spec fn is_zero_sharing(
    deltas: Seq<Seq<u8>>,
    xs: Seq<u8>,
    len: nat,
    coefficients: Seq<u8>,
    t: u8,
) -> bool {
    coefficients.len() == len * (t - 1) && deltas == zero_shares(xs, len, coefficients, t)
}

/// A share with a delta added to its data.
pub open spec fn refreshed_share(old: ShareModel, delta: Seq<u8>) -> ShareModel {
    ShareModel { data: xor_bytes(old.data, delta), ..old }
}

/// Whether `new` is `old` refreshed under the given coefficients: every share
/// keeps its index and parameters, and its data has the delta for its index added.
pub open spec fn is_refresh(
    new: Seq<ShareModel>,
    old: Seq<ShareModel>,
    coefficients: Seq<u8>,
    t: u8,
) -> bool {
    &&& coefficients.len() == old[0].data.len() * (t - 1)
    &&& new.len() == old.len()
    &&& forall|i: int|
        0 <= i < old.len() ==> #[trigger] new[i] == refreshed_share(
            old[i],
            evaluate_at(zeros(old[0].data.len()), coefficients, t as nat, old[i].index),
        )
}

/// Whether `shares` is a split of the chunk `data` under some coefficients.
pub open spec fn splits_chunk_into(shares: Seq<Seq<u8>>, data: Seq<u8>, t: u8, n: u8) -> bool {
    exists|coefficients: Seq<u8>| #[trigger] is_chunk_split(shares, data, coefficients, t, n)
}

/// Whether `deltas` are the deltas of a refresh under some coefficients.
pub open spec fn shares_zero_into(deltas: Seq<Seq<u8>>, xs: Seq<u8>, len: nat, t: u8) -> bool {
    exists|coefficients: Seq<u8>| #[trigger] is_zero_sharing(deltas, xs, len, coefficients, t)
}

/// Whether `new` is `old` refreshed under some coefficients.
pub open spec fn refreshes_into(new: Seq<ShareModel>, old: Seq<ShareModel>, t: u8) -> bool {
    exists|coefficients: Seq<u8>| #[trigger] is_refresh(new, old, coefficients, t)
}

/// The error, if any, with which a refresh refuses its shares: no shares;
/// fewer than the scheme's threshold; disagreeing lengths or integrity flags.
pub open spec fn refresh_refusal(shares: Seq<ShareModel>, t: u8) -> Option<ShamirError> {
    if shares.len() == 0 {
        Some(ShamirError::InsufficientShares { needed: 1, got: 0 })
    } else if shares.len() < t {
        Some(ShamirError::InsufficientShares { needed: t, got: shares.len() as u8 })
    } else if !(forall|i: int|
        0 <= i < shares.len() ==> (#[trigger] shares[i]).data.len() == shares[0].data.len()
            && shares[i].integrity_check == shares[0].integrity_check) {
        Some(ShamirError::InconsistentShareLength)
    } else {
        None
    }
}

impl View for ShamirShare {
    type V = SchemeModel;

    closed spec fn view(&self) -> SchemeModel {
        SchemeModel {
            total_shares: self.total_shares,
            threshold: self.threshold,
            config: self.config,
        }
    }
}

impl ShamirShare {
    /// `1 <= threshold <= total_shares`, and a valid configuration.
    pub open spec fn wf(&self) -> bool {
        self@.valid()
    }

    /// How many shares a reconstruction needs.
    pub fn threshold(&self) -> (r: u8)
        ensures
            r == self@.threshold,
    {
        self.threshold
    }

    /// How many shares a split makes.
    pub fn total_shares(&self) -> (r: u8)
        ensures
            r == self@.total_shares,
    {
        self.total_shares
    }

    /// The scheme's configuration.
    pub fn config(&self) -> (r: &Config)
        ensures
            *r == self@.config,
    {
        &self.config
    }

    /// A builder for a scheme with the given numbers.
    pub fn builder(total_shares: u8, threshold: u8) -> (r: ShamirShareBuilder)
        ensures
            r@.total_shares == total_shares,
            r@.threshold == threshold,
            r@.config.chunk_size == crate::config::DEFAULT_CHUNK_SIZE,
            r@.config.mode == crate::config::SplitMode::Sequential,
            !r@.config.compression,
            r@.config.integrity_check,
    {
        ShamirShareBuilder::new(total_shares, threshold)
    }

    /// Draws the `threshold - 1` random coefficients for each of `len` bytes,
    /// if that many can be counted.
    fn draw_coefficients(&mut self, len: usize) -> (r: Result<Vec<u8>, ShamirError>)
        requires
            old(self).wf(),
        ensures
            final(self)@ == old(self)@,
            fits(len as nat, old(self)@.threshold) <==> r is Ok,
            r matches Ok(c) ==> c@.len() == len * (old(self)@.threshold - 1),
            r matches Err(e) ==> e is InvalidConfig,
    {
        let t = self.threshold as usize;
        let count = match len.checked_mul(t - 1) {
            Some(count) => count,
            None => {
                return Err(
                    ShamirError::InvalidConfig(
                        String::from_str("Data too large for this threshold"),
                    ),
                );
            },
        };
        let mut coefficients = vec![0u8; count];
        fill_random(&mut self.rng, &mut coefficients);
        Ok(coefficients)
    }

    /// A dealer for data that is already prepared. This fails only where the
    /// coefficients cannot be counted.
    pub fn deal_prepared(&mut self, data: Vec<u8>) -> (r: Result<Dealer, ShamirError>)
        requires
            old(self).wf(),
        ensures
            final(self)@ == old(self)@,
            fits(data@.len(), old(self)@.threshold) <==> r is Ok,
            r matches Ok(dealer) ==> dealer.wf() && dealer@ == (DealerModel {
                data: data@,
                coefficients: dealer@.coefficients,
                next_index: 1,
                threshold: old(self)@.threshold,
                total_shares: old(self)@.total_shares,
                integrity_check: old(self)@.config.integrity_check,
                compression: old(self)@.config.compression,
            }),
            r matches Err(e) ==> e is InvalidConfig,
    {
        let coefficients = match self.draw_coefficients(data.len()) {
            Ok(c) => c,
            Err(e) => {
                let mut data = data;
                wipe(&mut data);
                return Err(e);
            },
        };
        Ok(
            Dealer {
                data,
                coefficients,
                current_x: 1,
                threshold: self.threshold,
                total_shares: self.total_shares,
                integrity_check: self.config.integrity_check,
                compression: self.config.compression,
            },
        )
    }

    /// A dealer for the shares of `secret`: the secret is prepared and the
    /// coefficients are drawn here, the shares are evaluated when asked for.
    /// Without compression this fails only where the coefficients cannot be
    /// counted; with it, the compressor may fail too.
    pub fn dealer(&mut self, secret: &[u8]) -> (r: Result<Dealer, ShamirError>)
        requires
            old(self).wf(),
        ensures
            final(self)@ == old(self)@,
            !old(self)@.config.compression ==> (fits(
                old(self)@.prepared(secret@).len(),
                old(self)@.threshold,
            ) <==> r is Ok),
            r matches Ok(dealer) ==> dealer.wf() && dealer@ == (DealerModel {
                data: old(self)@.prepared(secret@),
                coefficients: dealer@.coefficients,
                next_index: 1,
                threshold: old(self)@.threshold,
                total_shares: old(self)@.total_shares,
                integrity_check: old(self)@.config.integrity_check,
                compression: old(self)@.config.compression,
            }),
            r matches Err(e) ==> (e is CompressionError && old(self)@.config.compression) || (
            e is InvalidConfig),
    {
        let data = match prepare(secret, self.config.integrity_check, self.config.compression) {
            Ok(data) => data,
            Err(e) => {
                return Err(e);
            },
        };
        self.deal_prepared(data)
    }

    /// Splits `secret` into `total_shares` shares with the indices
    /// `1..=total_shares`, all of them values of the same polynomials.
    pub fn split(&mut self, secret: &[u8]) -> (r: Result<Vec<Share>, ShamirError>)
        requires
            old(self).wf(),
        ensures
            final(self)@ == old(self)@,
            !old(self)@.config.compression ==> (fits(
                old(self)@.prepared(secret@).len(),
                old(self)@.threshold,
            ) <==> r is Ok),
            r matches Ok(shares) ==> old(self)@.splits_into(
                share_models(shares@),
                old(self)@.prepared(secret@),
            ),
            r matches Err(e) ==> (e is CompressionError && old(self)@.config.compression) || (
            e is InvalidConfig),
    {
        let mut dealer = match self.dealer(secret) {
            Ok(dealer) => dealer,
            Err(e) => {
                return Err(e);
            },
        };
        let ghost start = dealer@;
        let shares = dealer.take(self.total_shares as usize);
        proof {
            assert(share_models(shares@).len() == shares@.len());
            assert(old(self)@.is_split(
                share_models(shares@),
                old(self)@.prepared(secret@),
                start.coefficients,
            ));
        }
        Ok(shares)
    }

    /// Splits one chunk of prepared data: the share data for the indices
    /// `1..=total_shares`. This fails only where the coefficients cannot be counted.
    pub fn split_chunk(&mut self, data: &[u8]) -> (r: Result<Vec<Vec<u8>>, ShamirError>)
        requires
            old(self).wf(),
        ensures
            final(self)@ == old(self)@,
            fits(data@.len(), old(self)@.threshold) <==> r is Ok,
            r matches Ok(shares) ==> splits_chunk_into(
                rows(shares@),
                data@,
                old(self)@.threshold,
                old(self)@.total_shares,
            ),
            r matches Err(e) ==> e is InvalidConfig,
    {
        let mut random_data = match self.draw_coefficients(data.len()) {
            Ok(c) => c,
            Err(e) => {
                return Err(e);
            },
        };
        let n = self.total_shares;
        let mut share_data: Vec<Vec<u8>> = Vec::with_capacity(n as usize);
        let mut i: u8 = 0;
        while i < n
            invariant
                i <= n,
                self.wf(),
                n == self@.total_shares,
                random_data@.len() == data@.len() * (self@.threshold - 1),
                share_data@.len() == i,
                forall|k: int|
                    0 <= k < i ==> (#[trigger] share_data@[k])@ == evaluate_at(
                        data@,
                        random_data@,
                        self@.threshold as nat,
                        (k + 1) as u8,
                    ),
            decreases n - i,
        {
            let x = i + 1;
            let share = evaluate_share(data, random_data.as_slice(), self.threshold, x);
            share_data.push(share);
            i += 1;
        }
        proof {
            assert(rows(share_data@) =~= chunk_shares(
                data@,
                random_data@,
                self@.threshold,
                self@.total_shares,
            ));
            assert(is_chunk_split(
                rows(share_data@),
                data@,
                random_data@,
                self@.threshold,
                self@.total_shares,
            ));
        }
        wipe(&mut random_data);
        Ok(share_data)
    }

    /// The Lagrange coefficients for interpolation at zero through the
    /// indices of `shares`, which must be pairwise distinct and nonzero.
    pub fn compute_lagrange_coefficients(shares: &[Share]) -> (r: Result<
        Vec<FiniteField>,
        ShamirError,
    >)
        ensures
            usable_indices(indices_of(share_models(shares@))) <==> r is Ok,
            r matches Ok(ls) ==> ls@.len() == shares@.len() && bytes_of(ls@)
                == lagrange_coefficients(indices_of(share_models(shares@))),
            r matches Err(e) ==> e == ShamirError::InvalidShareFormat && !usable_indices(
                indices_of(share_models(shares@)),
            ),
    {
        let mut xs: Vec<u8> = Vec::with_capacity(shares.len());
        let mut i: usize = 0;
        while i < shares.len()
            invariant
                i <= shares.len(),
                xs@.len() == i,
                forall|k: int| 0 <= k < i ==> xs@[k] == shares@[k].index,
            decreases shares.len() - i,
        {
            xs.push(shares[i].index);
            i += 1;
        }
        assert(xs@ =~= indices_of(share_models(shares@)));
        lagrange_at_zero(&xs)
    }

    /// The Lagrange coefficients for interpolation at zero through the
    /// indices of `views`, which must be pairwise distinct and nonzero.
    pub fn compute_lagrange_coefficients_from_views(views: &[ShareView]) -> (r: Result<
        Vec<FiniteField>,
        ShamirError,
    >)
        ensures
            usable_indices(view_indices(views@)) <==> r is Ok,
            r matches Ok(ls) ==> ls@.len() == views@.len() && bytes_of(ls@)
                == lagrange_coefficients(view_indices(views@)),
            r matches Err(e) ==> e == ShamirError::InvalidShareFormat && !usable_indices(
                view_indices(views@),
            ),
    {
        let mut xs: Vec<u8> = Vec::with_capacity(views.len());
        let mut i: usize = 0;
        while i < views.len()
            invariant
                i <= views.len(),
                xs@.len() == i,
                forall|k: int| 0 <= k < i ==> xs@[k] == views@[k].index,
            decreases views.len() - i,
        {
            xs.push(views[i].index);
            i += 1;
        }
        assert(xs@ =~= view_indices(views@));
        lagrange_at_zero(&xs)
    }

    /// Recovers a chunk from share views into `output`, which is overwritten:
    /// each byte is interpolated at zero through the points of its column.
    /// A refused chunk leaves `output` as it was.
    pub fn reconstruct_chunk_from_views(views: &[ShareView], output: &mut Vec<u8>) -> (r: Result<
        (),
        ShamirError,
    >)
        ensures
            match chunk_refusal(view_indices(views@), view_data(views@)) {
                Some(e) => r == Err::<(), ShamirError>(e) && final(output)@ == old(output)@,
                None => r is Ok && final(output)@ == recovered(
                    view_indices(views@),
                    view_data(views@),
                ),
            },
    {
        assert(view_data(views@).len() == views@.len());
        if views.len() == 0 {
            return Err(ShamirError::InsufficientShares { needed: 1, got: 0 });
        }
        assert(view_data(views@)[0] == views@[0].data@);
        let secret_len = views[0].data.len();
        let mut i: usize = 0;
        while i < views.len()
            invariant
                i <= views.len(),
                views.len() > 0,
                view_data(views@).len() == views@.len(),
                view_data(views@)[0] == views@[0].data@,
                secret_len == views@[0].data@.len(),
                forall|k: int| 0 <= k < i ==> (#[trigger] views@[k]).data@.len() == secret_len,
            decreases views.len() - i,
        {
            if views[i].data.len() != secret_len {
                assert(view_data(views@)[i as int] == views@[i as int].data@);
                assert(view_data(views@)[i as int].len() != view_data(views@)[0].len());
                return Err(ShamirError::InconsistentShareLength);
            }
            i += 1;
        }
        assert(same_length(view_data(views@))) by {
            assert forall|k: int| 0 <= k < view_data(views@).len() implies (#[trigger] view_data(
                views@,
            )[k]).len() == view_data(views@)[0].len() by {
                assert(views@[k].data@.len() == secret_len);
            }
        }
        let coefficients = match Self::compute_lagrange_coefficients_from_views(views) {
            Ok(c) => c,
            Err(e) => {
                return Err(e);
            },
        };
        output.clear();
        output.reserve(secret_len);
        let mut byte_idx: usize = 0;
        while byte_idx < secret_len
            invariant
                byte_idx <= secret_len,
                views.len() > 0,
                coefficients.len() == views.len(),
                secret_len == views@[0].data@.len(),
                forall|k: int|
                    0 <= k < views.len() ==> (#[trigger] views@[k]).data@.len() == secret_len,
                bytes_of(coefficients@) == lagrange_coefficients(view_indices(views@)),
                output@.len() == byte_idx,
                forall|k: int|
                    0 <= k < byte_idx ==> output@[k] == interpolate_at_zero(
                        view_indices(views@),
                        column(view_data(views@), k),
                    ),
            decreases secret_len - byte_idx,
        {
            let y = interpolate_byte(views, &coefficients, byte_idx);
            output.push(y);
            byte_idx += 1;
        }
        assert(output@ =~= recovered(view_indices(views@), view_data(views@)));
        Ok(())
    }

    /// Recovers a chunk from shares: each byte is interpolated at zero through
    /// the points of its column.
    pub fn reconstruct_chunk(shares: &[Share]) -> (r: Result<Vec<u8>, ShamirError>)
        ensures
            match chunk_refusal(
                indices_of(share_models(shares@)),
                data_of(share_models(shares@)),
            ) {
                Some(e) => outcome(r) == Err::<Seq<u8>, ShamirError>(e),
                None => r matches Ok(v) && v@ == recovered_bytes(share_models(shares@)),
            },
    {
        let mut views: Vec<ShareView> = Vec::with_capacity(shares.len());
        let mut i: usize = 0;
        while i < shares.len()
            invariant
                i <= shares.len(),
                views@.len() == i,
                forall|k: int|
                    0 <= k < i ==> (#[trigger] views@[k]).index == shares@[k].index
                        && views@[k].data@ == shares@[k].data@,
            decreases shares.len() - i,
        {
            views.push(ShareView { index: shares[i].index, data: shares[i].data.as_slice() });
            i += 1;
        }
        assert(view_indices(views@) =~= indices_of(share_models(shares@)));
        assert(view_data(views@) =~= data_of(share_models(shares@)));
        let mut output: Vec<u8> = Vec::new();
        match Self::reconstruct_chunk_from_views(views.as_slice(), &mut output) {
            Ok(()) => Ok(output),
            Err(e) => Err(e),
        }
    }

    /// Reconstructs the secret from shares. The shares are checked in this
    /// order: there is one; there are at least as many as the first share's
    /// threshold; they agree in length and flags; their indices are pairwise
    /// distinct and nonzero. Then the bytes are interpolated, and the payload
    /// is unpacked as the flags say.
    pub fn reconstruct(shares: &[Share]) -> (r: Result<Vec<u8>, ShamirError>)
        ensures
            reconstruct_allows(share_models(shares@), outcome(r)),
    {
        let ghost models = share_models(shares@);
        assert(models.len() == shares@.len());
        if shares.len() == 0 {
            return Err(ShamirError::InsufficientShares { needed: 1, got: 0 });
        }
        assert(models[0] == shares@[0]@);
        let threshold = shares[0].threshold;
        if shares.len() < threshold as usize {
            return Err(
                ShamirError::InsufficientShares { needed: threshold, got: shares.len() as u8 },
            );
        }
        let integrity_check = shares[0].integrity_check;
        let compression = shares[0].compression;
        let data_len = shares[0].data.len();
        let mut i: usize = 0;
        while i < shares.len()
            invariant
                i <= shares.len(),
                shares.len() > 0,
                models == share_models(shares@),
                models.len() == shares@.len(),
                shares.len() >= models[0].threshold,
                data_len == models[0].data.len(),
                integrity_check == models[0].integrity_check,
                compression == models[0].compression,
                forall|k: int|
                    0 <= k < i ==> (#[trigger] models[k]).data.len() == models[0].data.len()
                        && models[k].integrity_check == models[0].integrity_check
                        && models[k].compression == models[0].compression,
            decreases shares.len() - i,
        {
            let s = &shares[i];
            assert(models[i as int] == shares@[i as int]@);
            if !(s.data.len() == data_len && s.integrity_check == integrity_check && s.compression
                == compression) {
                assert(!(models[i as int].data.len() == models[0].data.len()
                    && models[i as int].integrity_check == models[0].integrity_check
                    && models[i as int].compression == models[0].compression));
                return Err(ShamirError::InconsistentShareLength);
            }
            i += 1;
        }
        assert(consistent(models));
        assert(same_length(data_of(models))) by {
            assert forall|k: int| 0 <= k < data_of(models).len() implies (#[trigger] data_of(
                models,
            )[k]).len() == data_of(models)[0].len() by {
                assert(models[k].data.len() == models[0].data.len());
            }
        }
        assert(data_of(models).len() == models.len());
        assert(indices_of(models).len() == models.len());
        let mut reconstructed_data = match Self::reconstruct_chunk(shares) {
            Ok(data) => data,
            Err(e) => {
                return Err(e);
            },
        };
        let result = unpack(reconstructed_data.as_slice(), integrity_check, compression);
        wipe(&mut reconstructed_data);
        result
    }

    /// The deltas of a refresh: for each index, the values of fresh random
    /// polynomials whose constant terms are zero. This fails only where the
    /// coefficients cannot be counted.
    pub fn generate_zero_polynomial_shares(
        &mut self,
        share_indices: &[u8],
        data_length: usize,
    ) -> (r: Result<Vec<Vec<u8>>, ShamirError>)
        requires
            old(self).wf(),
        ensures
            final(self)@ == old(self)@,
            fits(data_length as nat, old(self)@.threshold) <==> r is Ok,
            r matches Ok(deltas) ==> shares_zero_into(
                rows(deltas@),
                share_indices@,
                data_length as nat,
                old(self)@.threshold,
            ),
            r matches Err(e) ==> e is InvalidConfig,
    {
        let mut random_data = match self.draw_coefficients(data_length) {
            Ok(c) => c,
            Err(e) => {
                return Err(e);
            },
        };
        let mut delta_shares: Vec<Vec<u8>> = Vec::with_capacity(share_indices.len());
        let mut i: usize = 0;
        while i < share_indices.len()
            invariant
                i <= share_indices.len(),
                self.wf(),
                random_data@.len() == data_length * (self@.threshold - 1),
                delta_shares@.len() == i,
                forall|k: int|
                    0 <= k < i ==> (#[trigger] delta_shares@[k])@ == evaluate_at(
                        zeros(data_length as nat),
                        random_data@,
                        self@.threshold as nat,
                        share_indices@[k],
                    ),
            decreases share_indices.len() - i,
        {
            let delta = evaluate_zero_share(
                random_data.as_slice(),
                data_length,
                self.threshold,
                share_indices[i],
            );
            delta_shares.push(delta);
            i += 1;
        }
        proof {
            assert(rows(delta_shares@) =~= zero_shares(
                share_indices@,
                data_length as nat,
                random_data@,
                self@.threshold,
            ));
            assert(is_zero_sharing(
                rows(delta_shares@),
                share_indices@,
                data_length as nat,
                random_data@,
                self@.threshold,
            ));
        }
        wipe(&mut random_data);
        Ok(delta_shares)
    }

    /// Refreshes shares: adds to each the value at its index of fresh random
    /// polynomials with zero constant terms, so that the secret stays and
    /// every share changes. The shares are checked in this order: there is
    /// one; there are at least as many as the scheme's threshold; they agree
    /// in length and integrity flag. After that the refresh fails only where
    /// the coefficients cannot be counted.
    pub fn refresh_shares(&mut self, shares: &[Share]) -> (r: Result<Vec<Share>, ShamirError>)
        requires
            old(self).wf(),
        ensures
            final(self)@ == old(self)@,
            match refresh_refusal(share_models(shares@), old(self)@.threshold) {
                Some(e) => r matches Err(err) && err == e,
                None => if fits(share_models(shares@)[0].data.len(), old(self)@.threshold) {
                    r matches Ok(new) && refreshes_into(
                        share_models(new@),
                        share_models(shares@),
                        old(self)@.threshold,
                    )
                } else {
                    r matches Err(e) && e is InvalidConfig
                },
            },
    {
        let ghost models = share_models(shares@);
        assert(models.len() == shares@.len());
        if shares.len() == 0 {
            return Err(ShamirError::InsufficientShares { needed: 1, got: 0 });
        }
        assert(models[0] == shares@[0]@);
        if shares.len() < self.threshold as usize {
            return Err(
                ShamirError::InsufficientShares {
                    needed: self.threshold,
                    got: shares.len() as u8,
                },
            );
        }
        let data_length = shares[0].data.len();
        let integrity_check = shares[0].integrity_check;
        let mut i: usize = 0;
        while i < shares.len()
            invariant
                i <= shares.len(),
                shares.len() > 0,
                models == share_models(shares@),
                models.len() == shares@.len(),
                shares.len() >= self@.threshold,
                self@ == old(self)@,
                data_length == models[0].data.len(),
                integrity_check == models[0].integrity_check,
                forall|k: int|
                    0 <= k < i ==> (#[trigger] models[k]).data.len() == models[0].data.len()
                        && models[k].integrity_check == models[0].integrity_check,
            decreases shares.len() - i,
        {
            let s = &shares[i];
            assert(models[i as int] == shares@[i as int]@);
            if !(s.data.len() == data_length && s.integrity_check == integrity_check) {
                assert(!(models[i as int].data.len() == models[0].data.len()
                    && models[i as int].integrity_check == models[0].integrity_check));
                return Err(ShamirError::InconsistentShareLength);
            }
            i += 1;
        }
        let mut indices: Vec<u8> = Vec::with_capacity(shares.len());
        let mut i: usize = 0;
        while i < shares.len()
            invariant
                i <= shares.len(),
                indices@.len() == i,
                forall|k: int| 0 <= k < i ==> indices@[k] == shares@[k].index,
            decreases shares.len() - i,
        {
            indices.push(shares[i].index);
            i += 1;
        }
        let deltas = match self.generate_zero_polynomial_shares(indices.as_slice(), data_length) {
            Ok(d) => d,
            Err(e) => {
                return Err(e);
            },
        };
        let ghost coefficients = choose|c: Seq<u8>| #[trigger]
            is_zero_sharing(rows(deltas@), indices@, data_length as nat, c, self@.threshold);
        proof {
            assert(rows(deltas@).len() == deltas@.len());
            assert(zero_shares(indices@, data_length as nat, coefficients, self@.threshold).len()
                == indices@.len());
        }
        let mut refreshed_shares: Vec<Share> = Vec::with_capacity(shares.len());
        let mut i: usize = 0;
        while i < shares.len()
            invariant
                i <= shares.len(),
                shares.len() > 0,
                models == share_models(shares@),
                data_length == models[0].data.len(),
                forall|k: int|
                    0 <= k < shares.len() ==> (#[trigger] models[k]).data.len()
                        == models[0].data.len(),
                indices@.len() == shares.len(),
                deltas@.len() == shares.len(),
                models.len() == shares@.len(),
                forall|k: int| 0 <= k < shares.len() ==> indices@[k] == shares@[k].index,
                is_zero_sharing(
                    rows(deltas@),
                    indices@,
                    data_length as nat,
                    coefficients,
                    self@.threshold,
                ),
                refreshed_shares@.len() == i,
                forall|k: int|
                    0 <= k < i ==> (#[trigger] refreshed_shares@[k])@ == refreshed_share(
                        models[k],
                        evaluate_at(
                            zeros(data_length as nat),
                            coefficients,
                            self@.threshold as nat,
                            models[k].index,
                        ),
                    ),
            decreases shares.len() - i,
        {
            let old_share = &shares[i];
            let delta_data = &deltas[i];
            assert(delta_data@ == rows(deltas@)[i as int]);
            assert(models[i as int] == shares@[i as int]@);
            assert(models[i as int].data.len() == data_length);
            assert(delta_data@ == evaluate_at(
                zeros(data_length as nat),
                coefficients,
                self@.threshold as nat,
                indices@[i as int],
            ));
            let mut new_data: Vec<u8> = Vec::with_capacity(data_length);
            let mut j: usize = 0;
            while j < data_length
                invariant
                    j <= data_length,
                    old_share.data@.len() == data_length,
                    delta_data@.len() == data_length,
                    new_data@.len() == j,
                    forall|b: int|
                        0 <= b < j ==> new_data@[b] == old_share.data@[b] ^ delta_data@[b],
                decreases data_length - j,
            {
                new_data.push(old_share.data[j] ^ delta_data[j]);
                j += 1;
            }
            assert(new_data@ =~= xor_bytes(old_share.data@, delta_data@));
            refreshed_shares.push(
                Share {
                    index: old_share.index,
                    data: new_data,
                    threshold: old_share.threshold,
                    total_shares: old_share.total_shares,
                    integrity_check: old_share.integrity_check,
                    compression: old_share.compression,
                },
            );
            i += 1;
        }
        proof {
            let new = share_models(refreshed_shares@);
            assert forall|k: int| 0 <= k < models.len() implies #[trigger] new[k]
                == refreshed_share(
                models[k],
                evaluate_at(
                    zeros(models[0].data.len()),
                    coefficients,
                    self@.threshold as nat,
                    models[k].index,
                ),
            ) by {
                assert(refreshed_shares@[k]@ == new[k]);
            }
            assert(is_refresh(new, models, coefficients, self@.threshold));
        }
        Ok(refreshed_shares)
    }
}

} // verus!
