use crate::owner::OwnerId;
use crate::registry::{
    has_owner, index_of_owner, initial_partition, owners_distinct, share_of, shares_positive,
    sum_shares, transfer_outcome, transferred, valid_partition, ShareEntry,
};
use vstd::prelude::*;

verus! {

/// Shares are unsigned, so every partial total is non-negative.
pub proof fn lemma_sum_nonneg(p: Seq<ShareEntry>)
    ensures
        sum_shares(p) >= 0,
    decreases p.len(),
{
    if p.len() > 0 {
        lemma_sum_nonneg(p.drop_last());
    }
}

/// A single entry contributes no more than the whole total.
pub proof fn lemma_entry_le_sum(p: Seq<ShareEntry>, i: int)
    requires
        0 <= i < p.len(),
    ensures
        p[i].share <= sum_shares(p),
    decreases p.len(),
{
    if i == p.len() - 1 {
        lemma_sum_nonneg(p.drop_last());
    } else {
        lemma_entry_le_sum(p.drop_last(), i);
    }
}

/// Replacing one entry changes the total by the difference at that spot.
pub proof fn lemma_sum_update(p: Seq<ShareEntry>, i: int, e: ShareEntry)
    requires
        0 <= i < p.len(),
    ensures
        sum_shares(p.update(i, e)) == sum_shares(p) - p[i].share + e.share,
    decreases p.len(),
{
    if i == p.len() - 1 {
        assert(p.update(i, e).drop_last() =~= p.drop_last());
    } else {
        lemma_sum_update(p.drop_last(), i, e);
        assert(p.update(i, e).drop_last() =~= p.drop_last().update(i, e));
    }
}

/// Appending an entry adds its share to the total.
pub proof fn lemma_sum_push(p: Seq<ShareEntry>, e: ShareEntry)
    ensures
        sum_shares(p.push(e)) == sum_shares(p) + e.share,
{
    assert(p.push(e).drop_last() =~= p);
}

/// Removing one entry subtracts its share from the total.
pub proof fn lemma_sum_remove(p: Seq<ShareEntry>, i: int)
    requires
        0 <= i < p.len(),
    ensures
        sum_shares(p.remove(i)) == sum_shares(p) - p[i].share,
    decreases p.len(),
{
    if i == p.len() - 1 {
        assert(p.remove(i) =~= p.drop_last());
    } else {
        lemma_sum_remove(p.drop_last(), i);
        assert(p.remove(i).drop_last() =~= p.drop_last().remove(i));
        assert(p.remove(i).last() == p.last());
    }
}

/// Extending a prefix by one entry adds that entry's share.
pub proof fn lemma_sum_take_succ(p: Seq<ShareEntry>, i: int)
    requires
        0 <= i < p.len(),
    ensures
        sum_shares(p.take(i + 1)) == sum_shares(p.take(i)) + p[i].share,
{
    assert(p.take(i + 1).drop_last() =~= p.take(i));
}

/// A prefix never totals more than the whole partition.
pub proof fn lemma_sum_take_le(p: Seq<ShareEntry>, i: int)
    requires
        0 <= i <= p.len(),
    ensures
        sum_shares(p.take(i)) <= sum_shares(p),
    decreases p.len() - i,
{
    if i == p.len() {
        assert(p.take(i) =~= p);
    } else {
        lemma_sum_take_succ(p, i);
        lemma_sum_take_le(p, i + 1);
    }
}

/// In a duplicate-free partition, an entry's position pins down
/// `index_of_owner` and `share_of` for its owner.
pub proof fn lemma_owner_index(p: Seq<ShareEntry>, o: OwnerId, i: int)
    requires
        owners_distinct(p),
        0 <= i < p.len(),
        p[i].owner == o,
    ensures
        has_owner(p, o),
        index_of_owner(p, o) == i,
        share_of(p, o) == p[i].share,
{
    assert(has_owner(p, o));
    let j = index_of_owner(p, o);
    assert(0 <= j < p.len() && p[j].owner == o);
    if i < j {
        assert(p[i].owner != p[j].owner);
    } else if j < i {
        assert(p[j].owner != p[i].owner);
    }
}

/// A valid transfer preserves the partition invariants: the shares
/// still sum to exactly 100, no owner appears twice, and no zero-share
/// entry is retained.
pub proof fn lemma_transfer_preserves_invariants(
    p: Seq<ShareEntry>,
    from: OwnerId,
    to: OwnerId,
    percentage: u8,
)
    requires
        valid_partition(p),
        has_owner(p, from),
        0 < percentage <= 100,
        percentage <= share_of(p, from),
    ensures
        valid_partition(transferred(p, from, to, percentage)),
{
    let n = p.len() as int;
    let fi = index_of_owner(p, from);
    assert(0 <= fi < n && p[fi].owner == from);
    lemma_owner_index(p, from, fi);
    let q = transferred(p, from, to, percentage);
    if has_owner(p, to) {
        let ti = index_of_owner(p, to);
        assert(0 <= ti < n && p[ti].owner == to);
        lemma_entry_le_sum(p, ti);
        let e1 = ShareEntry { owner: to, share: (p[ti].share + percentage) as u8 };
        let p1 = p.update(ti, e1);
        lemma_sum_update(p, ti, e1);
        if to == from {
            lemma_owner_index(p, to, fi);
            assert(ti == fi);
            let e2 = ShareEntry { owner: from, share: (p1[fi].share - percentage) as u8 };
            let p2 = p1.update(fi, e2);
            assert(e2 == p[fi]);
            assert(p2 =~= p);
            assert(p2[fi].share > 0);
            assert(q == p);
        } else {
            assert(ti != fi);
            let e2 = ShareEntry { owner: from, share: (p1[fi].share - percentage) as u8 };
            let p2 = p1.update(fi, e2);
            lemma_sum_update(p1, fi, e2);
            assert(sum_shares(p2) == 100);
            assert(forall|k: int| 0 <= k < n ==> p2[k].owner == p[k].owner);
            assert(owners_distinct(p2));
            assert(forall|k: int| 0 <= k < n && k != fi ==> p2[k].share > 0);
            if p2[fi].share == 0 {
                lemma_sum_remove(p2, fi);
                assert(q == p2.remove(fi));
                assert(forall|a: int|
                    0 <= a < q.len() ==> q[a] == (if a < fi {
                        p2[a]
                    } else {
                        p2[a + 1]
                    }));
                assert(owners_distinct(q));
                assert(shares_positive(q));
            } else {
                assert(q == p2);
                assert(shares_positive(q));
            }
        }
    } else {
        assert(forall|k: int| 0 <= k < n ==> p[k].owner != to);
        assert(to != from);
        let e1 = ShareEntry { owner: to, share: percentage };
        let p1 = p.push(e1);
        lemma_sum_push(p, e1);
        let e2 = ShareEntry { owner: from, share: (p1[fi].share - percentage) as u8 };
        let p2 = p1.update(fi, e2);
        lemma_sum_update(p1, fi, e2);
        assert(sum_shares(p2) == 100);
        assert(forall|k: int| 0 <= k < n ==> p2[k].owner == p[k].owner);
        assert(p2[n].owner == to);
        assert(owners_distinct(p2));
        assert(forall|k: int| 0 <= k <= n && k != fi ==> p2[k].share > 0);
        if p2[fi].share == 0 {
            lemma_sum_remove(p2, fi);
            assert(q == p2.remove(fi));
            assert(forall|a: int|
                0 <= a < q.len() ==> q[a] == (if a < fi {
                    p2[a]
                } else {
                    p2[a + 1]
                }));
            assert(owners_distinct(q));
            assert(shares_positive(q));
        } else {
            assert(q == p2);
            assert(shares_positive(q));
        }
    }
}

/// Conservation: a successful transfer of `percentage` from `from` to
/// a distinct `to` lowers `from`'s share by exactly that amount, raises
/// `to`'s share by exactly that amount (creating the entry if `to` was
/// absent), and leaves every other owner's share untouched.
pub proof fn lemma_conservation(
    p: Seq<ShareEntry>,
    from: OwnerId,
    to: OwnerId,
    percentage: u8,
)
    requires
        valid_partition(p),
        has_owner(p, from),
        0 < percentage <= 100,
        percentage <= share_of(p, from),
        from != to,
    ensures
        share_of(transferred(p, from, to, percentage), from) == share_of(p, from) - percentage,
        share_of(transferred(p, from, to, percentage), to) == share_of(p, to) + percentage,
        forall|o: OwnerId|
            o != from && o != to ==> share_of(transferred(p, from, to, percentage), o) == share_of(
                p,
                o,
            ),
{
    let n = p.len() as int;
    let fi = index_of_owner(p, from);
    assert(0 <= fi < n && p[fi].owner == from);
    lemma_owner_index(p, from, fi);
    lemma_transfer_preserves_invariants(p, from, to, percentage);
    let q = transferred(p, from, to, percentage);
    // p2 is the partition just before a possible zero-share removal;
    // tidx is where `to` sits in it.
    let p2 = if has_owner(p, to) {
        let ti = index_of_owner(p, to);
        p.update(ti, ShareEntry { owner: to, share: (p[ti].share + percentage) as u8 }).update(
            fi,
            ShareEntry { owner: from, share: (p[fi].share - percentage) as u8 },
        )
    } else {
        p.push(ShareEntry { owner: to, share: percentage }).update(
            fi,
            ShareEntry { owner: from, share: (p[fi].share - percentage) as u8 },
        )
    };
    let tidx = if has_owner(p, to) {
        index_of_owner(p, to)
    } else {
        n
    };
    if has_owner(p, to) {
        let ti = index_of_owner(p, to);
        assert(0 <= ti < n && p[ti].owner == to);
        assert(ti != fi);
        lemma_entry_le_sum(p, ti);
        lemma_owner_index(p, to, ti);
        assert(q == (if p2[fi].share == 0 {
            p2.remove(fi)
        } else {
            p2
        }));
    } else {
        assert(forall|k: int| 0 <= k < n ==> p[k].owner != to);
        assert(p2[fi] == ShareEntry { owner: from, share: (p[fi].share - percentage) as u8 });
        assert(q == (if p2[fi].share == 0 {
            p2.remove(fi)
        } else {
            p2
        }));
    }
    // Shape of p2: `to`'s entry grew (or was appended), `from`'s entry
    // shrank, everything else is as in p.
    assert(p2[tidx] == ShareEntry {
        owner: to,
        share: (share_of(p, to) + percentage) as u8,
    });
    assert(p2[fi] == ShareEntry { owner: from, share: (p[fi].share - percentage) as u8 });
    assert(forall|k: int| 0 <= k < n && k != fi && k != tidx ==> p2[k] == p[k]);
    assert(owners_distinct(p2)) by {
        assert(forall|k: int| 0 <= k < n ==> p2[k].owner == p[k].owner);
    }
    if p2[fi].share == 0 {
        assert(q == p2.remove(fi));
        assert(forall|a: int|
            0 <= a < q.len() ==> q[a] == (if a < fi {
                p2[a]
            } else {
                p2[a + 1]
            }));
        // `from` is gone entirely.
        assert(forall|a: int| 0 <= a < q.len() ==> q[a].owner != from);
        assert(share_of(q, from) == 0);
        // `to` survives at a possibly shifted position.
        let tq = if tidx < fi {
            tidx
        } else {
            tidx - 1
        };
        assert(q[tq] == p2[tidx]);
        lemma_owner_index(q, to, tq);
        // Everyone else keeps the entry they had.
        assert(forall|o: OwnerId|
            o != from && o != to ==> share_of(q, o) == share_of(p, o)) by {
            assert forall|o: OwnerId| o != from && o != to implies share_of(q, o) == share_of(
                p,
                o,
            ) by {
                if has_owner(p, o) {
                    let k = index_of_owner(p, o);
                    assert(0 <= k < n && p[k].owner == o);
                    lemma_owner_index(p, o, k);
                    assert(k != fi && k != tidx);
                    let kq = if k < fi {
                        k
                    } else {
                        k - 1
                    };
                    assert(q[kq] == p2[k]);
                    lemma_owner_index(q, o, kq);
                } else {
                    assert(forall|k: int| 0 <= k < n ==> p[k].owner != o);
                    assert(forall|a: int| 0 <= a < q.len() ==> q[a].owner != o);
                }
            }
        }
    } else {
        assert(q == p2);
        lemma_owner_index(q, from, fi);
        lemma_owner_index(q, to, tidx);
        assert(forall|o: OwnerId|
            o != from && o != to ==> share_of(q, o) == share_of(p, o)) by {
            assert forall|o: OwnerId| o != from && o != to implies share_of(q, o) == share_of(
                p,
                o,
            ) by {
                if has_owner(p, o) {
                    let k = index_of_owner(p, o);
                    assert(0 <= k < n && p[k].owner == o);
                    lemma_owner_index(p, o, k);
                    assert(k != fi && k != tidx);
                    lemma_owner_index(q, o, k);
                } else {
                    assert(forall|k: int| 0 <= k < n ==> p[k].owner != o);
                    assert(forall|a: int| 0 <= a < q.len() ==> q[a].owner != o);
                }
            }
        }
    }
}

/// One transfer request as the external ledger would submit it, in
/// specification form.
pub ghost struct TransferRequest {
    pub asset_id: Seq<char>,
    pub from: OwnerId,
    pub to: OwnerId,
    pub percentage: u16,
}

/// The partition after one request: a rejected request leaves it as it
/// was, an accepted one replaces it with the transferred partition.
pub open spec fn apply_request(
    entity_asset_id: Seq<char>,
    p: Seq<ShareEntry>,
    req: TransferRequest,
) -> Seq<ShareEntry> {
    match transfer_outcome(entity_asset_id, p, req.asset_id, req.from, req.to, req.percentage) {
        Ok(q) => q,
        Err(_) => p,
    }
}

/// The partition after a whole stream of requests, applied in order.
pub open spec fn apply_requests(
    entity_asset_id: Seq<char>,
    p: Seq<ShareEntry>,
    reqs: Seq<TransferRequest>,
) -> Seq<ShareEntry>
    decreases reqs.len(),
{
    if reqs.len() == 0 {
        p
    } else {
        apply_request(
            entity_asset_id,
            apply_requests(entity_asset_id, p, reqs.drop_last()),
            reqs.last(),
        )
    }
}

/// The partition invariants hold after every sequence of transfer
/// requests against a valid partition, whether each request succeeds
/// or is rejected.
pub proof fn lemma_requests_preserve_invariants(
    entity_asset_id: Seq<char>,
    p: Seq<ShareEntry>,
    reqs: Seq<TransferRequest>,
)
    requires
        valid_partition(p),
    ensures
        valid_partition(apply_requests(entity_asset_id, p, reqs)),
    decreases reqs.len(),
{
    if reqs.len() > 0 {
        lemma_requests_preserve_invariants(entity_asset_id, p, reqs.drop_last());
        let cur = apply_requests(entity_asset_id, p, reqs.drop_last());
        let req = reqs.last();
        if transfer_outcome(entity_asset_id, cur, req.asset_id, req.from, req.to, req.percentage)
            is Ok {
            lemma_transfer_preserves_invariants(cur, req.from, req.to, req.percentage as u8);
        }
    }
}

/// From creation onward, the shares of a registry entity always sum to
/// exactly 100, owners stay unique, and no zero-share entry survives:
/// this holds for the partition a new entity starts with and after any
/// stream of transfer requests applied to it.
pub proof fn lemma_create_then_transfers(
    entity_asset_id: Seq<char>,
    creator: OwnerId,
    reqs: Seq<TransferRequest>,
)
    ensures
        valid_partition(apply_requests(entity_asset_id, initial_partition(creator), reqs)),
        sum_shares(apply_requests(entity_asset_id, initial_partition(creator), reqs)) == 100,
{
    reveal_with_fuel(sum_shares, 2);
    assert(initial_partition(creator).drop_last() =~= Seq::<ShareEntry>::empty());
    assert(valid_partition(initial_partition(creator)));
    lemma_requests_preserve_invariants(entity_asset_id, initial_partition(creator), reqs);
}

/// A transfer from an owner to itself leaves the partition unchanged.
pub proof fn lemma_self_transfer(p: Seq<ShareEntry>, from: OwnerId, percentage: u8)
    requires
        valid_partition(p),
        has_owner(p, from),
        0 < percentage <= 100,
        percentage <= share_of(p, from),
    ensures
        transferred(p, from, from, percentage) == p,
{
    let fi = index_of_owner(p, from);
    assert(0 <= fi < p.len() && p[fi].owner == from);
    lemma_owner_index(p, from, fi);
    lemma_entry_le_sum(p, fi);
    let e1 = ShareEntry { owner: from, share: (p[fi].share + percentage) as u8 };
    let p1 = p.update(fi, e1);
    let e2 = ShareEntry { owner: from, share: (p1[fi].share - percentage) as u8 };
    assert(e2 == p[fi]);
    assert(p1.update(fi, e2) =~= p);
    assert(transferred(p, from, from, percentage) == p);
}

} // verus!
