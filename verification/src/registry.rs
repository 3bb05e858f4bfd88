use crate::owner::OwnerId;
use vstd::prelude::*;

verus! {

/// One entry of an ownership partition: `owner` holds `share` percent
/// of the asset. A stored entry always has `0 < share <= 100`.
#[derive(Clone, Copy, Debug)]
pub struct ShareEntry {
    pub owner: OwnerId,
    pub share: u8,
}

/// The durable record for one media asset: its identifier, display
/// title, originating creator, and the current ownership partition.
#[derive(Clone, Debug)]
pub struct Media {
    pub asset_id: String,
    pub title: String,
    pub creator: OwnerId,
    pub partition: Vec<ShareEntry>,
}

/// The caller-correctable ways an operation can be refused. Every
/// failure leaves the entity exactly as it was.
#[derive(Clone, Copy, Debug, PartialEq, Eq, Structural)]
pub enum ErrorCode {
    /// The supplied identifier does not match the target entity.
    InvalidAssetId,
    /// The requested percentage is zero or above one hundred.
    InvalidPercentage,
    /// The sender does not currently hold at least the requested share.
    InsufficientOwnership,
    /// The sender holds no entry in the partition at all.
    FromNotFound,
}

/// The total of all shares in a partition.
pub open spec fn sum_shares(p: Seq<ShareEntry>) -> int
    decreases p.len(),
{
    if p.len() == 0 {
        0
    } else {
        sum_shares(p.drop_last()) + p.last().share
    }
}

/// No owner appears twice in the partition.
pub open spec fn owners_distinct(p: Seq<ShareEntry>) -> bool {
    forall|i: int, j: int| 0 <= i < j < p.len() ==> p[i].owner != p[j].owner
}

/// No entry carries a share of zero.
pub open spec fn shares_positive(p: Seq<ShareEntry>) -> bool {
    forall|i: int| 0 <= i < p.len() ==> p[i].share > 0
}

/// The partition invariants: shares sum to exactly 100, owners are
/// unique, and no zero-share entry is retained.
pub open spec fn valid_partition(p: Seq<ShareEntry>) -> bool {
    &&& sum_shares(p) == 100
    &&& owners_distinct(p)
    &&& shares_positive(p)
}

/// Whether `o` holds an entry in the partition.
pub open spec fn has_owner(p: Seq<ShareEntry>, o: OwnerId) -> bool {
    exists|i: int| 0 <= i < p.len() && p[i].owner == o
}

/// The index of `o`'s entry; meaningful only when `has_owner(p, o)`
/// and unique whenever owners are distinct.
pub open spec fn index_of_owner(p: Seq<ShareEntry>, o: OwnerId) -> int {
    choose|i: int| 0 <= i < p.len() && p[i].owner == o
}

/// The share `o` currently holds, or zero when `o` has no entry.
pub open spec fn share_of(p: Seq<ShareEntry>, o: OwnerId) -> int {
    if has_owner(p, o) {
        p[index_of_owner(p, o)].share as int
    } else {
        0
    }
}

/// The partition a freshly created entity starts with: the creator
/// holds everything.
pub open spec fn initial_partition(creator: OwnerId) -> Seq<ShareEntry> {
    seq![ShareEntry { owner: creator, share: 100 }]
}

impl Media {
    /// The structural contract of a stored entity: its partition
    /// satisfies the registry invariants.
    pub open spec fn well_formed(self) -> bool {
        valid_partition(self.partition@)
    }
}

impl ErrorCode {
    /// The message the ledger surfaces to the requester for this kind.
    pub open spec fn spec_message(self) -> Seq<char> {
        match self {
            ErrorCode::InvalidAssetId => "Invalid asset ID"@,
            ErrorCode::InvalidPercentage => "Invalid ownership percentage"@,
            ErrorCode::InsufficientOwnership => "Insufficient ownership"@,
            ErrorCode::FromNotFound => "Sender holds no share of this asset"@,
        }
    }

    /// A human-readable description of the failure.
    pub fn message(&self) -> (r: &'static str)
        ensures
            r@ == self.spec_message(),
    {
        match self {
            ErrorCode::InvalidAssetId => "Invalid asset ID",
            ErrorCode::InvalidPercentage => "Invalid ownership percentage",
            ErrorCode::InsufficientOwnership => "Insufficient ownership",
            ErrorCode::FromNotFound => "Sender holds no share of this asset",
        }
    }
}

/// Creates the registry record for a new media asset: the creator
/// receives the entire ownership, as a single-entry partition.
pub fn initialize_media(asset_id: String, title: String, creator: OwnerId) -> (media: Media)
    ensures
        media.asset_id == asset_id,
        media.title == title,
        media.creator == creator,
        media.partition@ == initial_partition(creator),
        media.well_formed(),
{
    let mut partition: Vec<ShareEntry> = Vec::new();
    partition.push(ShareEntry { owner: creator, share: 100 });
    proof {
        assert(partition@ =~= initial_partition(creator));
        reveal_with_fuel(sum_shares, 2);
        assert(initial_partition(creator).drop_last() =~= Seq::<ShareEntry>::empty());
        assert(sum_shares(partition@) == 100);
    }
    Media { asset_id, title, creator, partition }
}

/// The partition after moving `percentage` points from `from` to `to`:
/// `to`'s entry grows by `percentage` (or is appended at the end), then
/// `from`'s entry shrinks by `percentage` and is dropped if it reaches
/// zero. Meaningful when `from` holds at least `percentage`.
pub open spec fn transferred(
    p: Seq<ShareEntry>,
    from: OwnerId,
    to: OwnerId,
    percentage: u8,
) -> Seq<ShareEntry> {
    let fi = index_of_owner(p, from);
    let p1 = if has_owner(p, to) {
        let ti = index_of_owner(p, to);
        p.update(ti, ShareEntry { owner: to, share: (p[ti].share + percentage) as u8 })
    } else {
        p.push(ShareEntry { owner: to, share: percentage })
    };
    let p2 = p1.update(fi, ShareEntry { owner: from, share: (p1[fi].share - percentage) as u8 });
    if p2[fi].share == 0 {
        p2.remove(fi)
    } else {
        p2
    }
}

/// What a transfer request against an entity must produce: either the
/// first validation failure, in the order the checks are made, or the
/// new partition.
pub open spec fn transfer_outcome(
    entity_asset_id: Seq<char>,
    p: Seq<ShareEntry>,
    asset_id: Seq<char>,
    from: OwnerId,
    to: OwnerId,
    percentage: u16,
) -> Result<Seq<ShareEntry>, ErrorCode> {
    if entity_asset_id != asset_id {
        Err(ErrorCode::InvalidAssetId)
    } else if percentage == 0 || percentage > 100 {
        Err(ErrorCode::InvalidPercentage)
    } else if !has_owner(p, from) {
        Err(ErrorCode::FromNotFound)
    } else if share_of(p, from) < percentage {
        Err(ErrorCode::InsufficientOwnership)
    } else {
        Ok(transferred(p, from, to, percentage as u8))
    }
}

/// Finds the entry of `o`, scanning from the front.
fn find_owner(p: &Vec<ShareEntry>, o: OwnerId) -> (r: Option<usize>)
    ensures
        match r {
            Some(i) => i < p@.len() && p@[i as int].owner == o,
            None => !has_owner(p@, o),
        },
{
    let mut i: usize = 0;
    while i < p.len()
        invariant
            i <= p@.len(),
            forall|k: int| 0 <= k < i ==> p@[k].owner != o,
        decreases p@.len() - i,
    {
        if p[i].owner == o {
            return Some(i);
        }
        i = i + 1;
    }
    None
}

/// Checks the partition invariants of an entity at run time, so that
/// the external ledger can validate a stored record before asking for
/// a transfer against it.
pub fn is_well_formed(media: &Media) -> (r: bool)
    ensures
        r == media.well_formed(),
{
    let n = media.partition.len();
    let mut sum: u32 = 0;
    let mut i: usize = 0;
    while i < n
        invariant
            n == media.partition@.len(),
            i <= n,
            sum == sum_shares(media.partition@.take(i as int)),
            sum <= 100,
            forall|k: int| 0 <= k < i ==> media.partition@[k].share > 0,
        decreases n - i,
    {
        let s = media.partition[i].share;
        proof {
            crate::laws::lemma_sum_take_succ(media.partition@, i as int);
        }
        if s == 0 {
            return false;
        }
        if s as u32 > 100 - sum {
            proof {
                crate::laws::lemma_sum_take_le(media.partition@, i as int + 1);
            }
            return false;
        }
        sum = sum + s as u32;
        i = i + 1;
    }
    proof {
        assert(media.partition@.take(n as int) =~= media.partition@);
    }
    if sum != 100 {
        return false;
    }
    let mut a: usize = 0;
    while a < n
        invariant
            n == media.partition@.len(),
            a <= n,
            sum_shares(media.partition@) == 100,
            shares_positive(media.partition@),
            forall|x: int, y: int|
                0 <= x < y < n && x < a ==> media.partition@[x].owner
                    != media.partition@[y].owner,
        decreases n - a,
    {
        let mut b: usize = a + 1;
        while b < n
            invariant
                n == media.partition@.len(),
                a < n,
                a < b <= n,
                forall|y: int|
                    a < y < b ==> media.partition@[a as int].owner != media.partition@[y].owner,
            decreases n - b,
        {
            if media.partition[a].owner == media.partition[b].owner {
                return false;
            }
            b = b + 1;
        }
        a = a + 1;
    }
    true
}

/// Moves `percentage` points of ownership of the asset named by
/// `asset_id` from `from` to `to`, in place. On any validation failure
/// the entity is left exactly as it was; on success the partition is
/// replaced by `transferred(..)` and the invariants still hold.
///
/// The caller is the external ledger, which has already authenticated
/// the request as coming from `from`.
pub fn transfer_ownership(
    media: &mut Media,
    asset_id: &String,
    from: OwnerId,
    to: OwnerId,
    percentage: u16,
) -> (r: Result<(), ErrorCode>)
    requires
        old(media).well_formed(),
    ensures
        final(media).well_formed(),
        final(media).asset_id == old(media).asset_id,
        final(media).title == old(media).title,
        final(media).creator == old(media).creator,
        match transfer_outcome(
            old(media).asset_id@,
            old(media).partition@,
            asset_id@,
            from,
            to,
            percentage,
        ) {
            Ok(p) => r is Ok && final(media).partition@ == p,
            Err(e) => r == Result::<(), ErrorCode>::Err(e) && *final(media) == *old(media),
        },
{
    let ghost p0 = media.partition@;
    if !(media.asset_id == *asset_id) {
        return Err(ErrorCode::InvalidAssetId);
    }
    if percentage == 0 || percentage > 100 {
        return Err(ErrorCode::InvalidPercentage);
    }
    let pct: u8 = percentage as u8;
    let from_index = match find_owner(&media.partition, from) {
        Some(i) => i,
        None => {
            return Err(ErrorCode::FromNotFound);
        },
    };
    proof {
        crate::laws::lemma_owner_index(p0, from, from_index as int);
    }
    let current = media.partition[from_index].share;
    if current < pct {
        return Err(ErrorCode::InsufficientOwnership);
    }
    match find_owner(&media.partition, to) {
        Some(to_index) => {
            proof {
                crate::laws::lemma_owner_index(p0, to, to_index as int);
                crate::laws::lemma_entry_le_sum(p0, to_index as int);
            }
            let grown = media.partition[to_index].share + pct;
            media.partition.set(to_index, ShareEntry { owner: to, share: grown });
        },
        None => {
            media.partition.push(ShareEntry { owner: to, share: pct });
        },
    }
    let remaining = media.partition[from_index].share - pct;
    media.partition.set(from_index, ShareEntry { owner: from, share: remaining });
    if remaining == 0 {
        media.partition.remove(from_index);
    }
    proof {
        assert(media.partition@ == transferred(p0, from, to, pct));
        crate::laws::lemma_transfer_preserves_invariants(p0, from, to, pct);
    }
    Ok(())
}

} // verus!
