use global_decentralized_media_ownership::owner::OwnerId;
use global_decentralized_media_ownership::registry::{
    initialize_media, is_well_formed, transfer_ownership, ErrorCode, Media, ShareEntry,
};

fn owner(tag: u8) -> OwnerId {
    OwnerId { key: [tag; 32] }
}

fn sum_of(media: &Media) -> u32 {
    media.partition.iter().map(|e| e.share as u32).sum()
}

fn owners_unique(media: &Media) -> bool {
    for (i, a) in media.partition.iter().enumerate() {
        for b in media.partition.iter().skip(i + 1) {
            if a.owner == b.owner {
                return false;
            }
        }
    }
    true
}

fn no_zero_share(media: &Media) -> bool {
    media.partition.iter().all(|e| e.share > 0)
}

#[test]
fn invariants_hold_across_a_stream_of_transfers() {
    let mut media = initialize_media("m1".to_string(), "Title".to_string(), owner(1));
    let id = "m1".to_string();
    let requests: &[(u8, u8, u16)] = &[
        (1, 2, 40),
        (1, 3, 25),
        (2, 4, 40),
        (3, 1, 999), // rejected: invalid percentage
        (3, 1, 25),
        (5, 1, 10), // rejected: sender absent
        (4, 2, 90), // rejected: insufficient share
        (1, 4, 60),
        (4, 4, 10), // self transfer, no visible change
    ];
    for (from, to, pct) in requests.iter().copied() {
        let _ = transfer_ownership(&mut media, &id, owner(from), owner(to), pct);
        assert_eq!(sum_of(&media), 100);
        assert!(owners_unique(&media));
        assert!(no_zero_share(&media));
        assert!(is_well_formed(&media));
    }
}

#[test]
fn conservation_with_three_owners() {
    let mut media = initialize_media("m1".to_string(), "Title".to_string(), owner(1));
    let id = "m1".to_string();
    transfer_ownership(&mut media, &id, owner(1), owner(2), 30).unwrap();
    transfer_ownership(&mut media, &id, owner(1), owner(3), 20).unwrap();
    // partition is now [(1, 50), (2, 30), (3, 20)]
    transfer_ownership(&mut media, &id, owner(2), owner(3), 5).unwrap();
    let shares: Vec<(OwnerId, u8)> =
        media.partition.iter().map(|e| (e.owner, e.share)).collect();
    assert_eq!(shares.len(), 3);
    assert!(shares[0].0 == owner(1) && shares[0].1 == 50);
    assert!(shares[1].0 == owner(2) && shares[1].1 == 25);
    assert!(shares[2].0 == owner(3) && shares[2].1 == 25);
}

#[test]
fn self_transfer_changes_nothing() {
    let mut media = initialize_media("m1".to_string(), "Title".to_string(), owner(1));
    let id = "m1".to_string();
    transfer_ownership(&mut media, &id, owner(1), owner(2), 40).unwrap();
    let before: Vec<(OwnerId, u8)> =
        media.partition.iter().map(|e| (e.owner, e.share)).collect();
    transfer_ownership(&mut media, &id, owner(1), owner(1), 25).unwrap();
    let after: Vec<(OwnerId, u8)> =
        media.partition.iter().map(|e| (e.owner, e.share)).collect();
    assert_eq!(before.len(), after.len());
    for (x, y) in before.iter().zip(after.iter()) {
        assert!(x.0 == y.0);
        assert_eq!(x.1, y.1);
    }
}

#[test]
fn failure_leaves_entity_identical() {
    let mut media = initialize_media("m1".to_string(), "Title".to_string(), owner(1));
    let id = "m1".to_string();
    transfer_ownership(&mut media, &id, owner(1), owner(2), 40).unwrap();
    let asset_id = media.asset_id.clone();
    let title = media.title.clone();
    let creator = media.creator;
    let partition: Vec<ShareEntry> = media.partition.clone();
    let failures: &[(String, u8, u8, u16, ErrorCode)] = &[
        ("bad".to_string(), 1, 2, 10, ErrorCode::InvalidAssetId),
        ("m1".to_string(), 1, 2, 0, ErrorCode::InvalidPercentage),
        ("m1".to_string(), 1, 2, 101, ErrorCode::InvalidPercentage),
        ("m1".to_string(), 9, 2, 10, ErrorCode::FromNotFound),
        ("m1".to_string(), 1, 2, 61, ErrorCode::InsufficientOwnership),
    ];
    for (aid, from, to, pct, expected) in failures.iter() {
        let r = transfer_ownership(&mut media, aid, owner(*from), owner(*to), *pct);
        assert_eq!(r, Err(*expected));
        assert_eq!(media.asset_id, asset_id);
        assert_eq!(media.title, title);
        assert!(media.creator == creator);
        assert_eq!(media.partition.len(), partition.len());
        for (x, y) in media.partition.iter().zip(partition.iter()) {
            assert!(x.owner == y.owner);
            assert_eq!(x.share, y.share);
        }
    }
}

#[test]
fn validator_accepts_fresh_entity() {
    let media = initialize_media("m1".to_string(), "Title".to_string(), owner(1));
    assert!(is_well_formed(&media));
}

#[test]
fn validator_rejects_bad_sum() {
    let media = Media {
        asset_id: "m1".to_string(),
        title: "Title".to_string(),
        creator: owner(1),
        partition: vec![
            ShareEntry { owner: owner(1), share: 60 },
            ShareEntry { owner: owner(2), share: 60 },
        ],
    };
    assert!(!is_well_formed(&media));
}

#[test]
fn validator_rejects_zero_share() {
    let media = Media {
        asset_id: "m1".to_string(),
        title: "Title".to_string(),
        creator: owner(1),
        partition: vec![
            ShareEntry { owner: owner(1), share: 100 },
            ShareEntry { owner: owner(2), share: 0 },
        ],
    };
    assert!(!is_well_formed(&media));
}

#[test]
fn validator_rejects_duplicate_owner() {
    let media = Media {
        asset_id: "m1".to_string(),
        title: "Title".to_string(),
        creator: owner(1),
        partition: vec![
            ShareEntry { owner: owner(1), share: 60 },
            ShareEntry { owner: owner(1), share: 40 },
        ],
    };
    assert!(!is_well_formed(&media));
}

#[test]
fn validator_rejects_sum_overrun_midway() {
    let media = Media {
        asset_id: "m1".to_string(),
        title: "Title".to_string(),
        creator: owner(1),
        partition: vec![
            ShareEntry { owner: owner(1), share: 90 },
            ShareEntry { owner: owner(2), share: 90 },
            ShareEntry { owner: owner(3), share: 90 },
        ],
    };
    assert!(!is_well_formed(&media));
}

#[test]
fn error_messages_match_kinds() {
    assert_eq!(ErrorCode::InvalidAssetId.message(), "Invalid asset ID");
    assert_eq!(ErrorCode::InvalidPercentage.message(), "Invalid ownership percentage");
    assert_eq!(ErrorCode::InsufficientOwnership.message(), "Insufficient ownership");
    assert_eq!(
        ErrorCode::FromNotFound.message(),
        "Sender holds no share of this asset"
    );
}

#[test]
fn owner_equality_is_by_key() {
    let a = OwnerId { key: [7; 32] };
    let b = OwnerId { key: [7; 32] };
    let mut c = OwnerId { key: [7; 32] };
    c.key[31] = 8;
    assert!(a == b);
    assert!(a != c);
}
