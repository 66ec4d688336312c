//! Hierarchical secret sharing: one master scheme whose shares are handed out
//! to named access levels, each level a fixed number of them, in the order in
//! which the levels were declared. A level is bookkeeping: any shares that
//! together reach the master threshold reconstruct the secret.

use crate::error::ShamirError;
use crate::outside::wipe_text;
use crate::text::{append_decimal, decimal};
use crate::payload::outcome;
use crate::shamir::{reconstruct_allows, DealerModel, SchemeModel, ShamirShare};
use crate::share::{share_models, Share, ShareModel};
use crate::sharing::dealt_shares;
use vstd::prelude::*;
use vstd::string::StringExecFns;

verus! {

/// A named access level and the number of shares that it receives.
#[derive(Debug, Clone, PartialEq)]
pub struct AccessLevel {
    /// The level's name.
    pub name: String,
    /// How many shares the level receives; at least one in a valid hierarchy.
    pub shares_count: u8,
}

/// An access level as a mathematical value.
pub ghost struct LevelModel {
    pub name: Seq<char>,
    pub shares_count: u8,
}

impl View for AccessLevel {
    type V = LevelModel;

    open spec fn view(&self) -> LevelModel {
        LevelModel { name: self.name@, shares_count: self.shares_count }
    }
}

impl AccessLevel {
    /// Overwrites the name with zeros and clears both fields.
    pub fn zeroize(&mut self)
        ensures
            final(self)@ == (LevelModel { name: Seq::empty(), shares_count: 0 }),
    {
        wipe_text(&mut self.name);
        self.shares_count = 0;
    }
}

/// The shares that one access level received.
#[derive(Debug, Clone, PartialEq)]
pub struct HierarchicalShare {
    /// The name of the level.
    pub level_name: String,
    /// The level's shares.
    pub shares: Vec<Share>,
}

/// The shares of a level as a mathematical value.
pub ghost struct GroupModel {
    pub level_name: Seq<char>,
    pub shares: Seq<ShareModel>,
}

impl View for HierarchicalShare {
    type V = GroupModel;

    open spec fn view(&self) -> GroupModel {
        GroupModel { level_name: self.level_name@, shares: share_models(self.shares@) }
    }
}

impl HierarchicalShare {
    /// Overwrites the name and every share with zeros and clears both fields.
    pub fn zeroize(&mut self)
        ensures
            final(self)@ == (GroupModel { level_name: Seq::empty(), shares: Seq::empty() }),
    {
        wipe_text(&mut self.level_name);
        let mut i: usize = 0;
        while i < self.shares.len()
            invariant
                i <= self.shares.len(),
                self.level_name@ == Seq::<char>::empty(),
            decreases self.shares.len() - i,
        {
            let share = &mut self.shares[i];
            share.zeroize();
            i += 1;
        }
        self.shares.clear();
        assert(self@.shares =~= Seq::<ShareModel>::empty());
    }
}

/// The models of a sequence of access levels.
pub open spec fn level_models(levels: Seq<AccessLevel>) -> Seq<LevelModel> {
    Seq::new(levels.len(), |i: int| levels[i]@)
}

/// The models of a sequence of levels' shares.
pub open spec fn group_models(groups: Seq<HierarchicalShare>) -> Seq<GroupModel> {
    Seq::new(groups.len(), |i: int| groups[i]@)
}

/// The number of shares that the first `m` levels receive together.
pub open spec fn count_before(levels: Seq<LevelModel>, m: nat) -> nat
    decreases m,
{
    if m == 0 {
        0
    } else {
        count_before(levels, (m - 1) as nat) + levels[m - 1].shares_count as nat
    }
}

/// The number of shares that all the levels receive together.
pub open spec fn total_count(levels: Seq<LevelModel>) -> nat {
    count_before(levels, levels.len())
}

/// Every level receives at least one share.
pub open spec fn all_levels_counted(levels: Seq<LevelModel>) -> bool {
    forall|i: int| 0 <= i < levels.len() ==> (#[trigger] levels[i]).shares_count > 0
}

/// All the shares of the first `m` groups, in order.
pub open spec fn flattened(groups: Seq<GroupModel>, m: nat) -> Seq<ShareModel>
    decreases m,
{
    if m == 0 {
        Seq::empty()
    } else {
        flattened(groups, (m - 1) as nat) + groups[m - 1].shares
    }
}

/// The text of the error for more than 255 shares in all.
pub open spec fn too_many_shares_message(total: nat) -> Seq<char> {
    "Total shares count "@ + decimal(total) + " exceeds maximum of 255"@
}

/// A hierarchy: the master scheme's parameters and the levels.
pub ghost struct HsssModel {
    pub scheme: SchemeModel,
    pub levels: Seq<LevelModel>,
}

impl HsssModel {
    /// The master scheme is valid, every level receives a share, and the
    /// levels' shares are exactly the master scheme's.
    pub open spec fn valid(&self) -> bool {
        &&& self.scheme.valid()
        &&& self.levels.len() > 0
        &&& all_levels_counted(self.levels)
        &&& total_count(self.levels) == self.scheme.total_shares
    }

    /// Whether `groups` hands out, level by level in declaration order, the
    /// shares of `data` under the given coefficients: level `i` receives, under
    /// its name, as many shares as it counts, with the indices that follow
    /// those of the levels before it.
    pub open spec fn is_split(
        &self,
        groups: Seq<GroupModel>,
        data: Seq<u8>,
        coefficients: Seq<u8>,
    ) -> bool {
        &&& coefficients.len() == data.len() * (self.scheme.threshold - 1)
        &&& groups.len() == self.levels.len()
        &&& forall|i: int|
            0 <= i < self.levels.len() ==> (#[trigger] groups[i]).level_name == self.levels[i].name
                && groups[i].shares == dealt_shares(
                data,
                coefficients,
                self.scheme.threshold,
                self.scheme.total_shares,
                self.scheme.config.integrity_check,
                self.scheme.config.compression,
                (1 + count_before(self.levels, i as nat)) as u8,
                self.levels[i].shares_count as nat,
            )
    }

    /// Whether `groups` hands out the shares of `data` under some coefficients.
    pub open spec fn splits_into(&self, groups: Seq<GroupModel>, data: Seq<u8>) -> bool {
        exists|coefficients: Seq<u8>| #[trigger] self.is_split(groups, data, coefficients)
    }
}

/// What a builder holds.
pub ghost struct HsssBuilderModel {
    pub master_threshold: u8,
    pub levels: Seq<LevelModel>,
}

/// Collects the master threshold and the access levels, in the order in which
/// they are added, and checks them on `build`.
#[derive(Debug)]
pub struct HsssBuilder {
    master_threshold: u8,
    levels: Vec<AccessLevel>,
}

impl View for HsssBuilder {
    type V = HsssBuilderModel;

    closed spec fn view(&self) -> HsssBuilderModel {
        HsssBuilderModel {
            master_threshold: self.master_threshold,
            levels: level_models(self.levels@),
        }
    }
}

/// A hierarchical scheme: the master scheme and the access levels.
#[derive(Debug)]
pub struct Hsss {
    master_scheme: ShamirShare,
    levels: Vec<AccessLevel>,
}

impl View for Hsss {
    type V = HsssModel;

    closed spec fn view(&self) -> HsssModel {
        HsssModel { scheme: self.master_scheme@, levels: level_models(self.levels@) }
    }
}

/// Counts grow with the number of levels, by at least one share per level
/// where every level receives one.
pub proof fn lemma_count_before_grows(levels: Seq<LevelModel>, a: nat, b: nat)
    requires
        a <= b <= levels.len(),
    ensures
        count_before(levels, a) <= count_before(levels, b),
        all_levels_counted(levels) ==> count_before(levels, a) + (b - a) <= count_before(levels, b),
    decreases b - a,
{
    if a < b {
        lemma_count_before_grows(levels, a, (b - 1) as nat);
    }
}

impl HsssBuilder {
    /// A builder with the given master threshold and no levels yet.
    pub fn new(master_threshold: u8) -> (r: Self)
        ensures
            r@.master_threshold == master_threshold,
            r@.levels == Seq::<LevelModel>::empty(),
    {
        let r = Self { master_threshold, levels: Vec::new() };
        assert(r@.levels =~= Seq::<LevelModel>::empty());
        r
    }

    /// The same builder with one more level behind those already there.
    pub fn add_level(self, name: &str, shares_count: u8) -> (r: Self)
        ensures
            r@.master_threshold == self@.master_threshold,
            r@.levels == self@.levels.push(LevelModel { name: name@, shares_count }),
    {
        let mut builder = self;
        builder.levels.push(AccessLevel { name: String::from_str(name), shares_count });
        assert(builder@.levels =~= self@.levels.push(LevelModel { name: name@, shares_count }));
        builder
    }

    /// Checks the hierarchy and makes the scheme, with the sum of the levels'
    /// counts as the master scheme's number of shares. The checks come in this
    /// order: a zero threshold; no levels; a level without shares; more than
    /// 255 shares in all; a threshold above the number of shares. After them
    /// only the seeding of the master scheme's generator can fail.
    #[verifier::loop_isolation(false)]
    pub fn build(self) -> (r: Result<Hsss, ShamirError>)
        ensures
            self@.master_threshold == 0 ==> (r matches Err(e) && e
                == ShamirError::InvalidThreshold(0)),
            self@.master_threshold != 0 && self@.levels.len() == 0 ==> (
            r matches Err(ShamirError::InvalidConfig(msg)) && msg@
                == "At least one access level must be defined"@),
            self@.master_threshold != 0 && self@.levels.len() != 0 && !all_levels_counted(
                self@.levels,
            ) ==> (r matches Err(e) && e == ShamirError::InvalidShareCount(0)),
            self@.master_threshold != 0 && self@.levels.len() != 0 && all_levels_counted(
                self@.levels,
            ) && total_count(self@.levels) > 255 ==> (
            r matches Err(ShamirError::InvalidConfig(message)) && message@
                == too_many_shares_message(total_count(self@.levels))),
            self@.master_threshold != 0 && self@.levels.len() != 0 && all_levels_counted(
                self@.levels,
            ) && total_count(self@.levels) <= 255 && self@.master_threshold > total_count(
                self@.levels,
            ) ==> (r matches Err(e) && e == ShamirError::ThresholdTooLarge {
                threshold: self@.master_threshold,
                total_shares: total_count(self@.levels) as u8,
            }),
            self@.master_threshold != 0 && self@.levels.len() != 0 && all_levels_counted(
                self@.levels,
            ) && self@.master_threshold <= total_count(self@.levels) <= 255 ==> (r matches Ok(hsss)
                && hsss.wf() && hsss@.levels == self@.levels && hsss@.scheme.threshold
                == self@.master_threshold && hsss@.scheme.total_shares == total_count(self@.levels)
                && hsss@.scheme.config.integrity_check && !hsss@.scheme.config.compression) || (
            r matches Err(ShamirError::IoError(_))),
    {
        let ghost levels = self@.levels;
        assert(levels.len() == self.levels@.len());
        if self.master_threshold == 0 {
            return Err(ShamirError::InvalidThreshold(self.master_threshold));
        }
        if self.levels.len() == 0 {
            return Err(
                ShamirError::InvalidConfig(
                    String::from_str("At least one access level must be defined"),
                ),
            );
        }
        let mut i: usize = 0;
        while i < self.levels.len()
            invariant
                i <= self.levels.len(),
                levels == level_models(self.levels@),
                forall|k: int| 0 <= k < i ==> (#[trigger] levels[k]).shares_count > 0,
            decreases self.levels.len() - i,
        {
            assert(levels[i as int] == self.levels@[i as int]@);
            if self.levels[i].shares_count == 0 {
                return Err(ShamirError::InvalidShareCount(self.levels[i].shares_count));
            }
            i += 1;
        }
        assert(all_levels_counted(levels));
        let mut total_shares: u128 = 0;
        let mut i: usize = 0;
        while i < self.levels.len()
            invariant
                i <= self.levels.len(),
                levels == level_models(self.levels@),
                total_shares == count_before(levels, i as nat),
                total_shares <= 255 * i,
            decreases self.levels.len() - i,
        {
            assert(levels[i as int] == self.levels@[i as int]@);
            total_shares = total_shares + self.levels[i].shares_count as u128;
            i += 1;
        }
        if total_shares > 255 {
            let mut message = String::from_str("Total shares count ");
            append_decimal(&mut message, total_shares);
            message.append(" exceeds maximum of 255");
            return Err(ShamirError::InvalidConfig(message));
        }
        let n_master = total_shares as u8;
        if self.master_threshold > n_master {
            return Err(
                ShamirError::ThresholdTooLarge {
                    threshold: self.master_threshold,
                    total_shares: n_master,
                },
            );
        }
        proof {
            lemma_count_before_grows(levels, 0, levels.len());
        }
        let master_scheme = match ShamirShare::builder(n_master, self.master_threshold).build() {
            Ok(scheme) => scheme,
            Err(e) => {
                return Err(e);
            },
        };
        Ok(Hsss { master_scheme, levels: self.levels })
    }
}

impl Hsss {
    /// The hierarchy is valid.
    pub open spec fn wf(&self) -> bool {
        self@.valid()
    }

    /// A builder for a hierarchy with the given master threshold.
    pub fn builder(master_threshold: u8) -> (r: HsssBuilder)
        ensures
            r@.master_threshold == master_threshold,
            r@.levels == Seq::<LevelModel>::empty(),
    {
        HsssBuilder::new(master_threshold)
    }

    /// A hierarchy over a master scheme that is already built, so that the
    /// scheme's configuration can be chosen. The levels must fit the scheme:
    /// there is one, every level receives a share, and together they receive
    /// exactly the scheme's number of shares.
    #[verifier::loop_isolation(false)]
    pub fn with_master_scheme(master_scheme: ShamirShare, levels: Vec<AccessLevel>) -> (r: Result<
        Hsss,
        ShamirError,
    >)
        requires
            master_scheme.wf(),
        ensures
            levels@.len() == 0 ==> (r matches Err(ShamirError::InvalidConfig(_))),
            levels@.len() != 0 && !all_levels_counted(level_models(levels@)) ==> (r matches Err(e)
                && e == ShamirError::InvalidShareCount(0)),
            levels@.len() != 0 && all_levels_counted(level_models(levels@)) && total_count(
                level_models(levels@),
            ) != master_scheme@.total_shares ==> (r matches Err(ShamirError::InvalidConfig(_))),
            levels@.len() != 0 && all_levels_counted(level_models(levels@)) && total_count(
                level_models(levels@),
            ) == master_scheme@.total_shares ==> (r matches Ok(hsss) && hsss.wf() && hsss@.scheme
                == master_scheme@ && hsss@.levels == level_models(levels@)),
    {
        let ghost models = level_models(levels@);
        assert(models.len() == levels@.len());
        if levels.len() == 0 {
            return Err(
                ShamirError::InvalidConfig(
                    String::from_str("At least one access level must be defined"),
                ),
            );
        }
        let mut total_shares: u128 = 0;
        let mut i: usize = 0;
        while i < levels.len()
            invariant
                i <= levels.len(),
                total_shares == count_before(models, i as nat),
                total_shares <= 255 * i,
                forall|k: int| 0 <= k < i ==> (#[trigger] models[k]).shares_count > 0,
            decreases levels.len() - i,
        {
            assert(models[i as int] == levels@[i as int]@);
            if levels[i].shares_count == 0 {
                return Err(ShamirError::InvalidShareCount(levels[i].shares_count));
            }
            total_shares = total_shares + levels[i].shares_count as u128;
            i += 1;
        }
        if total_shares != master_scheme.total_shares() as u128 {
            return Err(
                ShamirError::InvalidConfig(
                    String::from_str("The levels do not add up to the scheme's shares"),
                ),
            );
        }
        Ok(Hsss { master_scheme, levels })
    }

    /// The access levels, in the order in which they were declared.
    pub fn levels(&self) -> (r: &[AccessLevel])
        ensures
            level_models(r@) == self@.levels,
    {
        self.levels.as_slice()
    }

    /// How many shares a reconstruction needs.
    pub fn master_threshold(&self) -> (r: u8)
        ensures
            r == self@.scheme.threshold,
    {
        self.master_scheme.threshold()
    }

    /// How many shares the levels receive together.
    pub fn total_shares(&self) -> (r: u8)
        ensures
            r == self@.scheme.total_shares,
    {
        self.master_scheme.total_shares()
    }

    /// Splits `secret` under the master scheme and hands the shares out to the
    /// levels in declaration order: the first level receives the indices from
    /// 1 on, each further level those that follow. All the levels draw from
    /// one split, so the indices are distinct across levels.
    pub fn split_secret(&mut self, secret: &[u8]) -> (r: Result<
        Vec<HierarchicalShare>,
        ShamirError,
    >)
        requires
            old(self).wf(),
        ensures
            final(self)@ == old(self)@,
            !old(self)@.scheme.config.compression ==> (crate::sharing::fits(
                old(self)@.scheme.prepared(secret@).len(),
                old(self)@.scheme.threshold,
            ) <==> r is Ok),
            r matches Ok(groups) ==> old(self)@.splits_into(
                group_models(groups@),
                old(self)@.scheme.prepared(secret@),
            ),
            r matches Err(e) ==> (e is CompressionError && old(self)@.scheme.config.compression)
                || (e is InvalidConfig),
    {
        let ghost model = self@;
        let ghost levels = model.levels;
        let mut dealer = match self.master_scheme.dealer(secret) {
            Ok(dealer) => dealer,
            Err(e) => {
                return Err(e);
            },
        };
        let ghost start = dealer@;
        let ghost data = model.scheme.prepared(secret@);
        let mut hierarchical_shares: Vec<HierarchicalShare> = Vec::with_capacity(
            self.levels.len(),
        );
        let mut i: usize = 0;
        assert(levels.len() == self.levels@.len());
        while i < self.levels.len()
            invariant
                i <= self.levels.len(),
                self@ == model,
                model.valid(),
                levels == model.levels,
                levels == level_models(self.levels@),
                levels.len() == self.levels@.len(),
                dealer.wf(),
                start == (DealerModel {
                    data,
                    coefficients: start.coefficients,
                    next_index: 1,
                    threshold: model.scheme.threshold,
                    total_shares: model.scheme.total_shares,
                    integrity_check: model.scheme.config.integrity_check,
                    compression: model.scheme.config.compression,
                }),
                dealer@ == start.advanced(count_before(levels, i as nat)),
                hierarchical_shares@.len() == i,
                forall|k: int|
                    0 <= k < i ==> (#[trigger] hierarchical_shares@[k])@.level_name
                        == levels[k].name && hierarchical_shares@[k]@.shares == dealt_shares(
                        data,
                        start.coefficients,
                        model.scheme.threshold,
                        model.scheme.total_shares,
                        model.scheme.config.integrity_check,
                        model.scheme.config.compression,
                        (1 + count_before(levels, k as nat)) as u8,
                        levels[k].shares_count as nat,
                    ),
            decreases self.levels.len() - i,
        {
            let level = &self.levels[i];
            proof {
                assert(levels[i as int] == self.levels@[i as int]@);
                lemma_count_before_grows(levels, (i + 1) as nat, levels.len());
                assert(count_before(levels, (i + 1) as nat) == count_before(levels, i as nat)
                    + levels[i as int].shares_count);
            }
            let shares = dealer.take(level.shares_count as usize);
            if shares.len() != level.shares_count as usize {
                return Err(
                    ShamirError::InvalidConfig(
                        String::from_str("Insufficient shares available for level"),
                    ),
                );
            }
            hierarchical_shares.push(HierarchicalShare { level_name: level.name.clone(), shares });
            i += 1;
        }
        proof {
            let groups = group_models(hierarchical_shares@);
            assert forall|k: int| 0 <= k < levels.len() implies (#[trigger] groups[k]).level_name
                == levels[k].name && groups[k].shares == dealt_shares(
                data,
                start.coefficients,
                model.scheme.threshold,
                model.scheme.total_shares,
                model.scheme.config.integrity_check,
                model.scheme.config.compression,
                (1 + count_before(levels, k as nat)) as u8,
                levels[k].shares_count as nat,
            ) by {
                assert(groups[k] == hierarchical_shares@[k]@);
            }
            assert(model.is_split(groups, data, start.coefficients));
        }
        Ok(hierarchical_shares)
    }

    /// Reconstructs the secret from the shares of any levels: all their
    /// shares are put in one list, level after level, and reconstructed as the
    /// master scheme's shares. Which levels they came from does not matter.
    pub fn reconstruct(&self, hierarchical_shares: &[HierarchicalShare]) -> (r: Result<
        Vec<u8>,
        ShamirError,
    >)
        ensures
            reconstruct_allows(
                flattened(group_models(hierarchical_shares@), hierarchical_shares@.len()),
                outcome(r),
            ),
    {
        let ghost groups = group_models(hierarchical_shares@);
        let mut all_shares: Vec<Share> = Vec::new();
        let mut i: usize = 0;
        assert(share_models(all_shares@) =~= flattened(groups, 0));
        while i < hierarchical_shares.len()
            invariant
                i <= hierarchical_shares.len(),
                groups == group_models(hierarchical_shares@),
                share_models(all_shares@) == flattened(groups, i as nat),
            decreases hierarchical_shares.len() - i,
        {
            let group = &hierarchical_shares[i];
            assert(groups[i as int] == group@);
            let mut j: usize = 0;
            assert(share_models(all_shares@) =~= flattened(groups, i as nat) + share_models(
                group.shares@,
            ).subrange(0, 0));
            while j < group.shares.len()
                invariant
                    j <= group.shares.len(),
                    share_models(all_shares@) == flattened(groups, i as nat) + share_models(
                        group.shares@,
                    ).subrange(0, j as int),
                decreases group.shares.len() - j,
            {
                let ghost earlier = all_shares@;
                let copy = group.shares[j].duplicate();
                all_shares.push(copy);
                proof {
                    let now = share_models(all_shares@);
                    let level = share_models(group.shares@);
                    let want = flattened(groups, i as nat) + level.subrange(0, j + 1);
                    let was = flattened(groups, i as nat) + level.subrange(0, j as int);
                    assert(share_models(earlier) == was);
                    assert(share_models(earlier).len() == earlier.len());
                    assert(level.len() == group.shares@.len());
                    assert(level.subrange(0, j as int).len() == j);
                    assert(level.subrange(0, j + 1).len() == j + 1);
                    assert(now.len() == earlier.len() + 1);
                    assert(now.len() == want.len());
                    assert forall|k: int| 0 <= k < now.len() implies now[k] == want[k] by {
                        if k < earlier.len() {
                            assert(all_shares@[k] == earlier[k]);
                            assert(share_models(earlier)[k] == was[k]);
                        } else {
                            assert(level[j as int] == group.shares@[j as int]@);
                        }
                    }
                    assert(now =~= want);
                }
                j += 1;
            }
            assert(share_models(group.shares@).subrange(0, j as int) =~= share_models(
                group.shares@,
            ));
            i += 1;
        }
        ShamirShare::reconstruct(all_shares.as_slice())
    }
}

} // verus!
