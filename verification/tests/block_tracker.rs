use ethereum_sentry::block_tracker::BlockTracker;
use ethereum_sentry::primitives::H256;

fn peer(n: u8) -> H256 {
    H256([n; 32])
}

fn sorted(mut v: Vec<H256>) -> Vec<H256> {
    v.sort_by_key(|h| h.0);
    v
}

#[test]
fn a_new_tracker_is_empty() {
    let t = BlockTracker::new();
    assert_eq!(t.len(), 0);
    assert_eq!(t.blocks(), Vec::<u64>::new());
    assert_eq!(t.block_of(&peer(1)), None);
    assert_eq!(t.peers_with_min_block(0), Vec::<H256>::new());
}

#[test]
fn block_tracker_churn() {
    let p = peer(1);
    let mut t = BlockTracker::new();
    t.set_block_number(p, 10, true);
    assert_eq!(t.block_of(&p), Some(10));
    assert_eq!(t.blocks(), vec![10]);
    t.set_block_number(p, 10, false);
    assert_eq!(t.block_of(&p), Some(10));
    assert_eq!(t.blocks(), vec![10]);
    assert_eq!(t.peers_at(10), vec![p]);
    t.set_block_number(p, 12, false);
    assert_eq!(t.block_of(&p), Some(12));
    assert_eq!(t.blocks(), vec![12]);
    assert_eq!(t.peers_at(12), vec![p]);
    assert_eq!(t.peers_at(10), Vec::<H256>::new());
    assert_eq!(t.len(), 1);
}

#[test]
fn an_unknown_peer_is_added_only_when_forced() {
    let mut t = BlockTracker::new();
    t.set_block_number(peer(1), 5, false);
    assert_eq!(t.len(), 0);
    assert_eq!(t.blocks(), Vec::<u64>::new());
    t.set_block_number(peer(1), 5, true);
    assert_eq!(t.len(), 1);
    assert_eq!(t.block_of(&peer(1)), Some(5));
}

#[test]
fn peers_share_a_block_and_leave_it_one_by_one() {
    let mut t = BlockTracker::new();
    t.set_block_number(peer(1), 7, true);
    t.set_block_number(peer(2), 7, true);
    t.set_block_number(peer(3), 9, true);
    assert_eq!(t.blocks(), vec![7, 9]);
    assert_eq!(sorted(t.peers_at(7)), vec![peer(1), peer(2)]);
    t.remove_peer(peer(1));
    assert_eq!(t.blocks(), vec![7, 9]);
    assert_eq!(t.peers_at(7), vec![peer(2)]);
    assert_eq!(t.block_of(&peer(1)), None);
    t.remove_peer(peer(2));
    assert_eq!(t.blocks(), vec![9]);
    assert_eq!(t.peers_at(7), Vec::<H256>::new());
    t.remove_peer(peer(3));
    assert_eq!(t.blocks(), Vec::<u64>::new());
    assert_eq!(t.len(), 0);
}

#[test]
fn removing_an_unknown_peer_changes_nothing() {
    let mut t = BlockTracker::new();
    t.set_block_number(peer(1), 7, true);
    t.remove_peer(peer(2));
    assert_eq!(t.len(), 1);
    assert_eq!(t.block_of(&peer(1)), Some(7));
    assert_eq!(t.blocks(), vec![7]);
}

#[test]
fn peers_with_min_block_come_in_ascending_block_order() {
    let mut t = BlockTracker::new();
    t.set_block_number(peer(1), 30, true);
    t.set_block_number(peer(2), 10, true);
    t.set_block_number(peer(3), 20, true);
    t.set_block_number(peer(4), 20, true);
    assert_eq!(t.blocks(), vec![10, 20, 30]);
    let all = t.peers_with_min_block(0);
    assert_eq!(all.len(), 4);
    assert_eq!(all[0], peer(2));
    assert_eq!(sorted(vec![all[1], all[2]]), vec![peer(3), peer(4)]);
    assert_eq!(all[3], peer(1));
    let some = t.peers_with_min_block(20);
    assert_eq!(some.len(), 3);
    assert_eq!(sorted(vec![some[0], some[1]]), vec![peer(3), peer(4)]);
    assert_eq!(some[2], peer(1));
    assert_eq!(t.peers_with_min_block(21), vec![peer(1)]);
    assert_eq!(t.peers_with_min_block(30), vec![peer(1)]);
    assert_eq!(t.peers_with_min_block(31), Vec::<H256>::new());
    assert_eq!(t.peers_with_min_block(u64::MAX), Vec::<H256>::new());
}

#[test]
fn a_peer_moves_between_blocks() {
    let mut t = BlockTracker::new();
    t.set_block_number(peer(1), 5, true);
    t.set_block_number(peer(2), 5, true);
    t.set_block_number(peer(1), 3, true);
    assert_eq!(t.blocks(), vec![3, 5]);
    assert_eq!(t.peers_at(3), vec![peer(1)]);
    assert_eq!(t.peers_at(5), vec![peer(2)]);
    t.set_block_number(peer(2), 3, false);
    assert_eq!(t.blocks(), vec![3]);
    assert_eq!(sorted(t.peers_at(3)), vec![peer(1), peer(2)]);
    assert_eq!(t.len(), 2);
}

#[test]
fn both_directions_of_the_index_agree() {
    let mut t = BlockTracker::new();
    for n in 0..20u8 {
        t.set_block_number(peer(n), (n % 5) as u64, true);
    }
    for n in 0..20u8 {
        if n % 3 == 0 {
            t.remove_peer(peer(n));
        } else if n % 3 == 1 {
            t.set_block_number(peer(n), (n % 7) as u64 + 10, false);
        }
    }
    let mut counted = 0;
    for b in t.blocks() {
        let peers = t.peers_at(b);
        assert!(!peers.is_empty());
        for p in peers {
            assert_eq!(t.block_of(&p), Some(b));
            counted += 1;
        }
    }
    assert_eq!(counted, t.len());
    for n in 0..20u8 {
        match t.block_of(&peer(n)) {
            Some(b) => assert!(t.peers_at(b).contains(&peer(n))),
            None => assert_eq!(n % 3, 0),
        }
    }
}
