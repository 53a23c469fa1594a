//! Best-block tracking: a two-way index between peers and block numbers.
//!
//! The tracker keeps, for every known peer, the highest block that peer has
//! announced, and for every such block the set of peers standing on it.  The
//! two directions always mirror each other and no block keeps an empty set.

use vstd::prelude::*;
use crate::primitives::H256;

verus! {

/// One `peer -> block` association.
struct PeerBlock {
    peer: H256,
    block: u64,
}

/// The peers standing on one block.
struct Bucket {
    block: u64,
    peers: Vec<H256>,
}

/// Entry `i` associates peer `p` with block `b`.
spec fn maps_at(es: Seq<PeerBlock>, i: int, p: Seq<u8>, b: u64) -> bool {
    0 <= i < es.len() && es[i].peer@ == p && es[i].block == b
}

/// Some entry associates peer `p` with block `b`.
spec fn maps_to(es: Seq<PeerBlock>, p: Seq<u8>, b: u64) -> bool {
    exists|i: int| maps_at(es, i, p, b)
}

/// Slot `a` of bucket `k` holds peer `p`, and that bucket stands for block `b`.
spec fn holds_at(bs: Seq<Bucket>, k: int, a: int, b: u64, p: Seq<u8>) -> bool {
    0 <= k < bs.len() && bs[k].block == b && 0 <= a < bs[k].peers@.len() && bs[k].peers@[a]@ == p
}

/// The bucket of block `b` holds peer `p`.
spec fn in_bucket(bs: Seq<Bucket>, b: u64, p: Seq<u8>) -> bool {
    exists|k: int, a: int| holds_at(bs, k, a, b, p)
}

/// Bucket `k` stands for block `b`.
spec fn bucket_at(bs: Seq<Bucket>, k: int, b: u64) -> bool {
    0 <= k < bs.len() && bs[k].block == b
}

/// Some bucket stands for block `b`.
spec fn has_bucket(bs: Seq<Bucket>, b: u64) -> bool {
    exists|k: int| bucket_at(bs, k, b)
}

/// No peer occurs in two entries.
spec fn entries_ok(es: Seq<PeerBlock>) -> bool {
    forall|i: int, j: int| 0 <= i < j < es.len() ==> es[i].peer@ != es[j].peer@
}

/// Buckets are in strictly ascending block order, none is empty, and no peer
/// occurs twice in one bucket.
spec fn buckets_ok(bs: Seq<Bucket>) -> bool {
    &&& forall|i: int, j: int| 0 <= i < j < bs.len() ==> bs[i].block < bs[j].block
    &&& forall|k: int| 0 <= k < bs.len() ==> (#[trigger] bs[k]).peers@.len() > 0
    &&& forall|k: int, a: int, c: int|
        0 <= k < bs.len() && 0 <= a < c < bs[k].peers@.len() ==> #[trigger] bs[k].peers@[a]@
            != #[trigger] bs[k].peers@[c]@
}

/// Both directions of the index describe the same relation.
spec fn linked(es: Seq<PeerBlock>, bs: Seq<Bucket>) -> bool {
    forall|p: Seq<u8>, b: u64| #[trigger] maps_to(es, p, b) <==> #[trigger] in_bucket(bs, b, p)
}

/// Position `(k, a)` occurs in the list of positions.
spec fn listed(pos: Seq<(int, int)>, k: int, a: int) -> bool {
    exists|x: int| 0 <= x < pos.len() && #[trigger] pos[x] == (k, a)
}

/// The set of peers that a map sends to block `b`.
pub open spec fn peers_on(m: Map<Seq<u8>, u64>, b: u64) -> Set<Seq<u8>> {
    Set::new(|p: Seq<u8>| m.contains_pair(p, b))
}

/// The inverse image of a `peer -> block` map: every block that some peer
/// stands on, with the set of peers standing on it.
pub open spec fn by_block(m: Map<Seq<u8>, u64>) -> Map<u64, Set<Seq<u8>>> {
    Map::new(|b: u64| exists|p: Seq<u8>| m.contains_pair(p, b), |b: u64| peers_on(m, b))
}

/// Best block per peer, indexed in both directions.
pub struct BlockTracker {
    block_by_peer: Vec<PeerBlock>,
    peers_by_block: Vec<Bucket>,
}

/// Position of `peer` among the entries.
fn find_entry(es: &Vec<PeerBlock>, peer: &H256) -> (r: Option<usize>)
    ensures
        match r {
            Some(i) => i < es@.len() && es@[i as int].peer@ == peer@,
            None => forall|i: int| 0 <= i < es@.len() ==> es@[i].peer@ != peer@,
        },
{
    let mut i: usize = 0;
    while i < es.len()
        invariant
            i <= es@.len(),
            forall|j: int| 0 <= j < i ==> es@[j].peer@ != peer@,
        decreases es@.len() - i,
    {
        if es[i].peer.same(peer) {
            return Some(i);
        }
        i += 1;
    }
    None
}

/// Position of the bucket of `block`, or where such a bucket belongs.
fn find_bucket(bs: &Vec<Bucket>, block: u64) -> (r: Result<usize, usize>)
    requires
        buckets_ok(bs@),
    ensures
        match r {
            Ok(k) => k < bs@.len() && bs@[k as int].block == block,
            Err(k) => {
                &&& k <= bs@.len()
                &&& forall|j: int| 0 <= j < k ==> bs@[j].block < block
                &&& forall|j: int| k <= j < bs@.len() ==> bs@[j].block > block
            },
        },
{
    let mut k: usize = 0;
    while k < bs.len()
        invariant
            k <= bs@.len(),
            buckets_ok(bs@),
            forall|j: int| 0 <= j < k ==> bs@[j].block < block,
        decreases bs@.len() - k,
    {
        if bs[k].block == block {
            return Ok(k);
        }
        if bs[k].block > block {
            return Err(k);
        }
        k += 1;
    }
    Err(k)
}

/// Position of `peer` in a list of peers.
fn find_peer(peers: &Vec<H256>, peer: &H256) -> (r: Option<usize>)
    ensures
        match r {
            Some(a) => a < peers@.len() && peers@[a as int]@ == peer@,
            None => forall|a: int| 0 <= a < peers@.len() ==> peers@[a]@ != peer@,
        },
{
    let mut a: usize = 0;
    while a < peers.len()
        invariant
            a <= peers@.len(),
            forall|j: int| 0 <= j < a ==> peers@[j]@ != peer@,
        decreases peers@.len() - a,
    {
        if peers[a].same(peer) {
            return Some(a);
        }
        a += 1;
    }
    None
}

/// Takes `peer` out of the bucket of `block`, dropping the bucket if it
/// becomes empty.
fn unlink(bs: &mut Vec<Bucket>, peer: &H256, block: u64)
    requires
        buckets_ok(old(bs)@),
    ensures
        buckets_ok(final(bs)@),
        forall|b: u64, p: Seq<u8>|
            #[trigger] in_bucket(final(bs)@, b, p) <==> (in_bucket(old(bs)@, b, p) && !(b == block
                && p == peer@)),
{
    let ghost before = bs@;
    match find_bucket(bs, block) {
        Err(_) => {
            assert forall|b: u64, p: Seq<u8>| in_bucket(before, b, p) implies !(b == block && p
                == peer@) by {
                let (k, a) = choose|k: int, a: int| holds_at(before, k, a, b, p);
                assert(holds_at(before, k, a, b, p));
            }
        },
        Ok(k) => {
            match find_peer(&bs[k].peers, peer) {
                None => {
                    assert forall|b: u64, p: Seq<u8>| in_bucket(before, b, p) implies !(b == block
                        && p == peer@) by {
                        let (k2, a) = choose|k2: int, a: int| holds_at(before, k2, a, b, p);
                        assert(holds_at(before, k2, a, b, p));
                        if b == block {
                            assert(k2 == k);
                        }
                    }
                },
                Some(a) => {
                    if bs[k].peers.len() == 1 {
                        bs.remove(k);
                        proof {
                            lemma_drop_bucket(before, bs@, k as int, peer@, block);
                        }
                    } else {
                        bs[k].peers.remove(a);
                        proof {
                            lemma_drop_peer(before, bs@, k as int, a as int, peer@, block);
                        }
                    }
                },
            }
        },
    }
}

/// Removing a one-peer bucket removes exactly that `(block, peer)` pair.
proof fn lemma_drop_bucket(before: Seq<Bucket>, after: Seq<Bucket>, k: int, peer: Seq<u8>, block: u64)
    requires
        buckets_ok(before),
        0 <= k < before.len(),
        before[k].block == block,
        before[k].peers@.len() == 1,
        before[k].peers@[0]@ == peer,
        after == before.remove(k),
    ensures
        buckets_ok(after),
        forall|b: u64, p: Seq<u8>|
            #[trigger] in_bucket(after, b, p) <==> (in_bucket(before, b, p) && !(b == block && p
                == peer)),
{
    assert forall|b: u64, p: Seq<u8>| #[trigger]
        in_bucket(after, b, p) <==> (in_bucket(before, b, p) && !(b == block && p == peer)) by {
        if in_bucket(after, b, p) {
            let (k2, a) = choose|k2: int, a: int| holds_at(after, k2, a, b, p);
            let k1 = if k2 < k { k2 } else { k2 + 1 };
            assert(after[k2] == before[k1]);
            assert(holds_at(before, k1, a, b, p));
            assert(b != block);
        }
        if in_bucket(before, b, p) && !(b == block && p == peer) {
            let (k1, a) = choose|k1: int, a: int| holds_at(before, k1, a, b, p);
            assert(k1 != k);
            let k2 = if k1 < k { k1 } else { k1 - 1 };
            assert(after[k2] == before[k1]);
            assert(holds_at(after, k2, a, b, p));
        }
    }
}

/// Removing one peer from a larger bucket removes exactly that
/// `(block, peer)` pair.
proof fn lemma_drop_peer(
    before: Seq<Bucket>,
    after: Seq<Bucket>,
    k: int,
    a: int,
    peer: Seq<u8>,
    block: u64,
)
    requires
        buckets_ok(before),
        0 <= k < before.len(),
        before[k].block == block,
        0 <= a < before[k].peers@.len(),
        before[k].peers@.len() > 1,
        before[k].peers@[a]@ == peer,
        after.len() == before.len(),
        after[k].block == block,
        after[k].peers@ == before[k].peers@.remove(a),
        forall|j: int| 0 <= j < before.len() && j != k ==> after[j] == before[j],
    ensures
        buckets_ok(after),
        forall|b: u64, p: Seq<u8>|
            #[trigger] in_bucket(after, b, p) <==> (in_bucket(before, b, p) && !(b == block && p
                == peer)),
{
    assert forall|i: int, j: int| 0 <= i < j < after.len() implies after[i].block
        < after[j].block by {
        assert(after[i].block == before[i].block);
        assert(after[j].block == before[j].block);
    }
    assert forall|k2: int| 0 <= k2 < after.len() implies (#[trigger] after[k2]).peers@.len()
        > 0 by {
        if k2 != k {
            assert(after[k2] == before[k2]);
        }
    }
    assert forall|k2: int, x: int, y: int|
        0 <= k2 < after.len() && 0 <= x < y < after[k2].peers@.len() implies #[trigger] after[k2].peers@[x]@
        != #[trigger] after[k2].peers@[y]@ by {
        if k2 != k {
            assert(after[k2] == before[k2]);
        } else {
            let x1 = if x < a { x } else { x + 1 };
            let y1 = if y < a { y } else { y + 1 };
            assert(after[k].peers@[x] == before[k].peers@[x1]);
            assert(after[k].peers@[y] == before[k].peers@[y1]);
        }
    }
    assert forall|b: u64, p: Seq<u8>| #[trigger]
        in_bucket(after, b, p) <==> (in_bucket(before, b, p) && !(b == block && p == peer)) by {
        if in_bucket(after, b, p) {
            let (k2, x) = choose|k2: int, x: int| holds_at(after, k2, x, b, p);
            if k2 != k {
                assert(after[k2] == before[k2]);
                assert(holds_at(before, k2, x, b, p));
                assert(b != block);
            } else {
                let x1 = if x < a { x } else { x + 1 };
                assert(after[k].peers@[x] == before[k].peers@[x1]);
                assert(holds_at(before, k, x1, b, p));
                assert(p != peer);
            }
        }
        if in_bucket(before, b, p) && !(b == block && p == peer) {
            let (k1, x1) = choose|k1: int, x1: int| holds_at(before, k1, x1, b, p);
            if k1 != k {
                assert(after[k1] == before[k1]);
                assert(holds_at(after, k1, x1, b, p));
            } else {
                assert(x1 != a);
                let x = if x1 < a { x1 } else { x1 - 1 };
                assert(after[k].peers@[x] == before[k].peers@[x1]);
                assert(holds_at(after, k, x, b, p));
            }
        }
    }
}

/// Puts `peer` into the bucket of `block`, creating the bucket if needed.
fn link(bs: &mut Vec<Bucket>, peer: H256, block: u64)
    requires
        buckets_ok(old(bs)@),
        !in_bucket(old(bs)@, block, peer@),
    ensures
        buckets_ok(final(bs)@),
        forall|b: u64, p: Seq<u8>|
            #[trigger] in_bucket(final(bs)@, b, p) <==> (in_bucket(old(bs)@, b, p) || (b == block
                && p == peer@)),
{
    let ghost before = bs@;
    match find_bucket(bs, block) {
        Ok(k) => {
            bs[k].peers.push(peer);
            proof {
                lemma_add_peer(before, bs@, k as int, peer, block);
            }
        },
        Err(k) => {
            let mut peers: Vec<H256> = Vec::new();
            peers.push(peer);
            bs.insert(k, Bucket { block, peers });
            proof {
                lemma_add_bucket(before, bs@, k as int, peer, block);
            }
        },
    }
}

/// Appending a new peer to a bucket adds exactly that `(block, peer)` pair.
proof fn lemma_add_peer(before: Seq<Bucket>, after: Seq<Bucket>, k: int, peer: H256, block: u64)
    requires
        buckets_ok(before),
        !in_bucket(before, block, peer@),
        0 <= k < before.len(),
        before[k].block == block,
        after.len() == before.len(),
        after[k].block == block,
        after[k].peers@ == before[k].peers@.push(peer),
        forall|j: int| 0 <= j < before.len() && j != k ==> after[j] == before[j],
    ensures
        buckets_ok(after),
        forall|b: u64, p: Seq<u8>|
            #[trigger] in_bucket(after, b, p) <==> (in_bucket(before, b, p) || (b == block && p
                == peer@)),
{
    let n = before[k].peers@.len() as int;
    assert forall|i: int, j: int| 0 <= i < j < after.len() implies after[i].block
        < after[j].block by {
        assert(after[i].block == before[i].block);
        assert(after[j].block == before[j].block);
    }
    assert forall|k2: int| 0 <= k2 < after.len() implies (#[trigger] after[k2]).peers@.len()
        > 0 by {
        if k2 != k {
            assert(after[k2] == before[k2]);
        }
    }
    assert forall|k2: int, x: int, y: int|
        0 <= k2 < after.len() && 0 <= x < y < after[k2].peers@.len() implies #[trigger] after[k2].peers@[x]@
        != #[trigger] after[k2].peers@[y]@ by {
        if k2 != k {
            assert(after[k2] == before[k2]);
        } else {
            assert(after[k].peers@[x] == before[k].peers@[x]);
            if y < n {
                assert(after[k].peers@[y] == before[k].peers@[y]);
            } else {
                assert(after[k].peers@[y] == peer);
                assert(!holds_at(before, k, x, block, peer@));
            }
        }
    }
    assert forall|b: u64, p: Seq<u8>| #[trigger]
        in_bucket(after, b, p) <==> (in_bucket(before, b, p) || (b == block && p == peer@)) by {
        if in_bucket(after, b, p) {
            let (k2, x) = choose|k2: int, x: int| holds_at(after, k2, x, b, p);
            if k2 != k {
                assert(after[k2] == before[k2]);
                assert(holds_at(before, k2, x, b, p));
            } else if x < n {
                assert(after[k].peers@[x] == before[k].peers@[x]);
                assert(holds_at(before, k, x, b, p));
            }
        }
        if in_bucket(before, b, p) {
            let (k1, x) = choose|k1: int, x: int| holds_at(before, k1, x, b, p);
            if k1 != k {
                assert(after[k1] == before[k1]);
            } else {
                assert(after[k].peers@[x] == before[k].peers@[x]);
            }
            assert(holds_at(after, k1, x, b, p));
        }
        if b == block && p == peer@ {
            assert(after[k].peers@[n] == peer);
            assert(holds_at(after, k, n, b, p));
        }
    }
}

/// Inserting a fresh one-peer bucket in block order adds exactly that
/// `(block, peer)` pair.
proof fn lemma_add_bucket(before: Seq<Bucket>, after: Seq<Bucket>, k: int, peer: H256, block: u64)
    requires
        buckets_ok(before),
        0 <= k <= before.len(),
        forall|j: int| 0 <= j < k ==> before[j].block < block,
        forall|j: int| k <= j < before.len() ==> before[j].block > block,
        after.len() == before.len() + 1,
        after[k].block == block,
        after[k].peers@ == seq![peer],
        forall|j: int| 0 <= j < k ==> after[j] == before[j],
        forall|j: int| k < j < after.len() ==> after[j] == before[j - 1],
    ensures
        buckets_ok(after),
        forall|b: u64, p: Seq<u8>|
            #[trigger] in_bucket(after, b, p) <==> (in_bucket(before, b, p) || (b == block && p
                == peer@)),
{
    assert forall|i: int, j: int| 0 <= i < j < after.len() implies after[i].block
        < after[j].block by {
        if i < k {
            assert(after[i] == before[i]);
        } else if i > k {
            assert(after[i] == before[i - 1]);
        }
        if j < k {
            assert(after[j] == before[j]);
        } else if j > k {
            assert(after[j] == before[j - 1]);
        }
    }
    assert forall|k2: int| 0 <= k2 < after.len() implies (#[trigger] after[k2]).peers@.len()
        > 0 by {
        if k2 < k {
            assert(after[k2] == before[k2]);
        } else if k2 > k {
            assert(after[k2] == before[k2 - 1]);
        }
    }
    assert forall|k2: int, x: int, y: int|
        0 <= k2 < after.len() && 0 <= x < y < after[k2].peers@.len() implies #[trigger] after[k2].peers@[x]@
        != #[trigger] after[k2].peers@[y]@ by {
        if k2 < k {
            assert(after[k2] == before[k2]);
        } else if k2 > k {
            assert(after[k2] == before[k2 - 1]);
        }
    }
    assert forall|b: u64, p: Seq<u8>| #[trigger]
        in_bucket(after, b, p) <==> (in_bucket(before, b, p) || (b == block && p == peer@)) by {
        if in_bucket(after, b, p) {
            let (k2, x) = choose|k2: int, x: int| holds_at(after, k2, x, b, p);
            if k2 < k {
                assert(after[k2] == before[k2]);
                assert(holds_at(before, k2, x, b, p));
            } else if k2 > k {
                assert(after[k2] == before[k2 - 1]);
                assert(holds_at(before, k2 - 1, x, b, p));
            }
        }
        if in_bucket(before, b, p) {
            let (k1, x) = choose|k1: int, x: int| holds_at(before, k1, x, b, p);
            let k2 = if k1 < k { k1 } else { k1 + 1 };
            assert(after[k2] == before[k1]);
            assert(holds_at(after, k2, x, b, p));
        }
        if b == block && p == peer@ {
            assert(holds_at(after, k, 0, b, p));
        }
    }
}

/// With distinct peers, a peer is associated with at most one block.
proof fn lemma_single_block(es: Seq<PeerBlock>, p: Seq<u8>, b1: u64, b2: u64)
    requires
        entries_ok(es),
        maps_to(es, p, b1),
        maps_to(es, p, b2),
    ensures
        b1 == b2,
{
    let i = choose|i: int| maps_at(es, i, p, b1);
    let j = choose|j: int| maps_at(es, j, p, b2);
    assert(maps_at(es, i, p, b1));
    assert(maps_at(es, j, p, b2));
    if i < j {
        assert(es[i].peer@ != es[j].peer@);
    } else if j < i {
        assert(es[j].peer@ != es[i].peer@);
    }
}

/// Appending an entry for an unknown peer adds exactly that pair.
proof fn lemma_push_entry(before: Seq<PeerBlock>, after: Seq<PeerBlock>, peer: H256, block: u64)
    requires
        entries_ok(before),
        forall|i: int| 0 <= i < before.len() ==> before[i].peer@ != peer@,
        after == before.push(PeerBlock { peer, block }),
    ensures
        entries_ok(after),
        forall|p: Seq<u8>, b: u64|
            #[trigger] maps_to(after, p, b) <==> (maps_to(before, p, b) || (p == peer@ && b
                == block)),
{
    let n = before.len() as int;
    assert forall|i: int, j: int| 0 <= i < j < after.len() implies after[i].peer@
        != after[j].peer@ by {
        assert(after[i] == before[i]);
        if j < n {
            assert(after[j] == before[j]);
        }
    }
    assert forall|p: Seq<u8>, b: u64| #[trigger]
        maps_to(after, p, b) <==> (maps_to(before, p, b) || (p == peer@ && b == block)) by {
        if maps_to(after, p, b) {
            let i = choose|i: int| maps_at(after, i, p, b);
            assert(maps_at(after, i, p, b));
            if i < n {
                assert(after[i] == before[i]);
                assert(maps_at(before, i, p, b));
            }
        }
        if maps_to(before, p, b) {
            let i = choose|i: int| maps_at(before, i, p, b);
            assert(maps_at(before, i, p, b));
            assert(after[i] == before[i]);
            assert(maps_at(after, i, p, b));
        }
        if p == peer@ && b == block {
            assert(maps_at(after, n, p, b));
        }
    }
}

/// Changing the block of entry `i` re-associates exactly that peer.
proof fn lemma_update_entry(
    before: Seq<PeerBlock>,
    after: Seq<PeerBlock>,
    i: int,
    peer: Seq<u8>,
    block: u64,
)
    requires
        entries_ok(before),
        0 <= i < before.len(),
        before[i].peer@ == peer,
        after.len() == before.len(),
        after[i].peer@ == peer,
        after[i].block == block,
        forall|j: int| 0 <= j < before.len() && j != i ==> after[j] == before[j],
    ensures
        entries_ok(after),
        forall|p: Seq<u8>, b: u64|
            #[trigger] maps_to(after, p, b) <==> ((p != peer && maps_to(before, p, b)) || (p
                == peer && b == block)),
{
    assert forall|x: int, y: int| 0 <= x < y < after.len() implies after[x].peer@
        != after[y].peer@ by {
        assert(after[x].peer@ == before[x].peer@);
        assert(after[y].peer@ == before[y].peer@);
    }
    assert forall|p: Seq<u8>, b: u64| #[trigger]
        maps_to(after, p, b) <==> ((p != peer && maps_to(before, p, b)) || (p == peer && b
            == block)) by {
        if maps_to(after, p, b) {
            let j = choose|j: int| maps_at(after, j, p, b);
            assert(maps_at(after, j, p, b));
            if j != i {
                assert(after[j] == before[j]);
                assert(maps_at(before, j, p, b));
                if j < i {
                    assert(before[j].peer@ != before[i].peer@);
                } else {
                    assert(before[i].peer@ != before[j].peer@);
                }
            }
        }
        if p != peer && maps_to(before, p, b) {
            let j = choose|j: int| maps_at(before, j, p, b);
            assert(maps_at(before, j, p, b));
            assert(after[j] == before[j]);
            assert(maps_at(after, j, p, b));
        }
        if p == peer && b == block {
            assert(maps_at(after, i, p, b));
        }
    }
}

/// Removing entry `i` forgets exactly that peer.
proof fn lemma_remove_entry(before: Seq<PeerBlock>, after: Seq<PeerBlock>, i: int, peer: Seq<u8>)
    requires
        entries_ok(before),
        0 <= i < before.len(),
        before[i].peer@ == peer,
        after == before.remove(i),
    ensures
        entries_ok(after),
        forall|p: Seq<u8>, b: u64|
            #[trigger] maps_to(after, p, b) <==> (p != peer && maps_to(before, p, b)),
{
    assert forall|x: int, y: int| 0 <= x < y < after.len() implies after[x].peer@
        != after[y].peer@ by {
        let x1 = if x < i { x } else { x + 1 };
        let y1 = if y < i { y } else { y + 1 };
        assert(after[x] == before[x1]);
        assert(after[y] == before[y1]);
    }
    assert forall|p: Seq<u8>, b: u64| #[trigger]
        maps_to(after, p, b) <==> (p != peer && maps_to(before, p, b)) by {
        if maps_to(after, p, b) {
            let j = choose|j: int| maps_at(after, j, p, b);
            assert(maps_at(after, j, p, b));
            let j1 = if j < i { j } else { j + 1 };
            assert(after[j] == before[j1]);
            assert(maps_at(before, j1, p, b));
            if j1 < i {
                assert(before[j1].peer@ != before[i].peer@);
            } else {
                assert(before[i].peer@ != before[j1].peer@);
            }
        }
        if p != peer && maps_to(before, p, b) {
            let j1 = choose|j1: int| maps_at(before, j1, p, b);
            assert(maps_at(before, j1, p, b));
            let j = if j1 < i { j1 } else { j1 - 1 };
            assert(after[j] == before[j1]);
            assert(maps_at(after, j, p, b));
        }
    }
}

/// The peers that occur in the entries.
spec fn known_peers(es: Seq<PeerBlock>) -> Set<Seq<u8>> {
    Set::new(|p: Seq<u8>| exists|b: u64| maps_to(es, p, b))
}

/// Entries with distinct peers name as many peers as there are entries.
proof fn lemma_peer_count(es: Seq<PeerBlock>)
    requires
        entries_ok(es),
    ensures
        known_peers(es).finite(),
        known_peers(es).len() == es.len(),
    decreases es.len(),
{
    if es.len() == 0 {
        assert forall|p: Seq<u8>| !known_peers(es).contains(p) by {
            if known_peers(es).contains(p) {
                let b = choose|b: u64| maps_to(es, p, b);
                let i = choose|i: int| maps_at(es, i, p, b);
                assert(maps_at(es, i, p, b));
            }
        }
        assert(known_peers(es) =~= Set::<Seq<u8>>::empty());
    } else {
        let front = es.drop_last();
        let last = es.last();
        let n = front.len() as int;
        assert forall|i: int, j: int| 0 <= i < j < front.len() implies front[i].peer@
            != front[j].peer@ by {
            assert(front[i] == es[i]);
            assert(front[j] == es[j]);
        }
        lemma_peer_count(front);
        assert(!known_peers(front).contains(last.peer@)) by {
            if known_peers(front).contains(last.peer@) {
                let b = choose|b: u64| maps_to(front, last.peer@, b);
                let i = choose|i: int| maps_at(front, i, last.peer@, b);
                assert(maps_at(front, i, last.peer@, b));
                assert(front[i] == es[i]);
                assert(es[i].peer@ != es[n].peer@);
            }
        }
        assert forall|p: Seq<u8>| known_peers(es).contains(p) <==> (known_peers(front).contains(p) || p
            == last.peer@) by {
            if known_peers(es).contains(p) {
                let b = choose|b: u64| maps_to(es, p, b);
                let i = choose|i: int| maps_at(es, i, p, b);
                assert(maps_at(es, i, p, b));
                if i < n {
                    assert(front[i] == es[i]);
                    assert(maps_at(front, i, p, b));
                    assert(maps_to(front, p, b));
                }
            }
            if known_peers(front).contains(p) {
                let b = choose|b: u64| maps_to(front, p, b);
                let i = choose|i: int| maps_at(front, i, p, b);
                assert(maps_at(front, i, p, b));
                assert(front[i] == es[i]);
                assert(maps_at(es, i, p, b));
                assert(maps_to(es, p, b));
            }
            if p == last.peer@ {
                assert(maps_at(es, n, p, last.block));
                assert(maps_to(es, p, last.block));
            }
        }
        assert(known_peers(es) =~= known_peers(front).insert(last.peer@));
    }
}

impl Default for BlockTracker {
    fn default() -> (out: BlockTracker)
        ensures
            out.wf(),
            out.block_by_peer() == Map::<Seq<u8>, u64>::empty(),
            out.peers_by_block() == Map::<u64, Set<Seq<u8>>>::empty(),
    {
        BlockTracker::new()
    }
}

impl BlockTracker {
    /// The best block of every tracked peer.
    pub closed spec fn block_by_peer(&self) -> Map<Seq<u8>, u64> {
        Map::new(
            |p: Seq<u8>| exists|b: u64| maps_to(self.block_by_peer@, p, b),
            |p: Seq<u8>| choose|b: u64| maps_to(self.block_by_peer@, p, b),
        )
    }

    /// For every block that has a bucket, the peers in that bucket.
    pub closed spec fn peers_by_block(&self) -> Map<u64, Set<Seq<u8>>> {
        Map::new(
            |b: u64| has_bucket(self.peers_by_block@, b),
            |b: u64| Set::new(|p: Seq<u8>| in_bucket(self.peers_by_block@, b, p)),
        )
    }

    /// The representation invariant: entries and buckets are free of
    /// repetition, buckets are sorted and non-empty, and both directions
    /// describe the same relation.
    pub closed spec fn wf(&self) -> bool {
        &&& entries_ok(self.block_by_peer@)
        &&& buckets_ok(self.peers_by_block@)
        &&& linked(self.block_by_peer@, self.peers_by_block@)
    }

    /// An empty tracker.
    pub fn new() -> (out: BlockTracker)
        ensures
            out.wf(),
            out.block_by_peer() == Map::<Seq<u8>, u64>::empty(),
            out.peers_by_block() == Map::<u64, Set<Seq<u8>>>::empty(),
    {
        let out = BlockTracker { block_by_peer: Vec::new(), peers_by_block: Vec::new() };
        proof {
            assert forall|p: Seq<u8>, b: u64| !maps_to(out.block_by_peer@, p, b) by {
                if maps_to(out.block_by_peer@, p, b) {
                    let i = choose|i: int| maps_at(out.block_by_peer@, i, p, b);
                    assert(maps_at(out.block_by_peer@, i, p, b));
                }
            }
            assert forall|p: Seq<u8>, b: u64| !in_bucket(out.peers_by_block@, b, p) by {
                if in_bucket(out.peers_by_block@, b, p) {
                    let (k, a) = choose|k: int, a: int| holds_at(out.peers_by_block@, k, a, b, p);
                    assert(holds_at(out.peers_by_block@, k, a, b, p));
                }
            }
            assert forall|b: u64| !has_bucket(out.peers_by_block@, b) by {
                if has_bucket(out.peers_by_block@, b) {
                    let k = choose|k: int| bucket_at(out.peers_by_block@, k, b);
                    assert(bucket_at(out.peers_by_block@, k, b));
                }
            }
            assert(out.block_by_peer() =~= Map::<Seq<u8>, u64>::empty());
            assert(out.peers_by_block() =~= Map::<u64, Set<Seq<u8>>>::empty());
        }
        out
    }
    /// Relates the abstract map to the stored entries.
    proof fn lemma_map_is_relation(&self)
        requires
            entries_ok(self.block_by_peer@),
        ensures
            forall|p: Seq<u8>, b: u64|
                #[trigger] self.block_by_peer().contains_pair(p, b) <==> maps_to(
                    self.block_by_peer@,
                    p,
                    b,
                ),
    {
        let es = self.block_by_peer@;
        assert forall|p: Seq<u8>, b: u64| #[trigger]
            self.block_by_peer().contains_pair(p, b) <==> maps_to(es, p, b) by {
            if maps_to(es, p, b) {
                let c = choose|c: u64| maps_to(es, p, c);
                lemma_single_block(es, p, b, c);
            }
            if self.block_by_peer().contains_pair(p, b) {
                let c = choose|c: u64| maps_to(es, p, c);
                assert(maps_to(es, p, c));
            }
        }
    }

    /// Records `block` as the best block of `peer`.  An unknown peer is
    /// added only when `force_create` is set; otherwise the call changes
    /// nothing for it.
    pub fn set_block_number(&mut self, peer: H256, block: u64, force_create: bool)
        requires
            old(self).wf(),
        ensures
            final(self).wf(),
            final(self).block_by_peer() == (if old(self).block_by_peer().contains_key(peer@)
                || force_create {
                old(self).block_by_peer().insert(peer@, block)
            } else {
                old(self).block_by_peer()
            }),
    {
        let ghost es0 = self.block_by_peer@;
        let ghost bs0 = self.peers_by_block@;
        let ghost m0 = self.block_by_peer();
        proof {
            self.lemma_map_is_relation();
        }
        match find_entry(&self.block_by_peer, &peer) {
            None => {
                proof {
                    assert forall|b: u64| !maps_to(es0, peer@, b) by {
                        if maps_to(es0, peer@, b) {
                            let i = choose|i: int| maps_at(es0, i, peer@, b);
                            assert(maps_at(es0, i, peer@, b));
                        }
                    }
                    assert(!m0.contains_key(peer@)) by {
                        if m0.contains_key(peer@) {
                            assert(m0.contains_pair(peer@, m0[peer@]));
                        }
                    }
                }
                if force_create {
                    self.block_by_peer.push(PeerBlock { peer, block });
                    proof {
                        lemma_push_entry(es0, self.block_by_peer@, peer, block);
                        assert(maps_to(es0, peer@, block) <==> in_bucket(bs0, block, peer@));
                    }
                } else {
                    return ;
                }
            },
            Some(i) => {
                let old_block = self.block_by_peer[i].block;
                self.block_by_peer[i].block = block;
                proof {
                    assert(maps_at(es0, i as int, peer@, old_block));
                    assert(m0.contains_pair(peer@, old_block));
                    lemma_update_entry(es0, self.block_by_peer@, i as int, peer@, block);
                    assert forall|b: u64| in_bucket(bs0, b, peer@) implies b == old_block by {
                        lemma_single_block(es0, peer@, b, old_block);
                    }
                }
                unlink(&mut self.peers_by_block, &peer, old_block);
                proof {
                    if in_bucket(self.peers_by_block@, block, peer@) {
                        assert(in_bucket(bs0, block, peer@));
                    }
                }
            },
        }
        link(&mut self.peers_by_block, peer, block);
        proof {
            let es1 = self.block_by_peer@;
            let bs1 = self.peers_by_block@;
            assert forall|p: Seq<u8>, b: u64| #[trigger]
                maps_to(es1, p, b) <==> #[trigger] in_bucket(bs1, b, p) by {
                assert(maps_to(es0, p, b) <==> in_bucket(bs0, b, p));
            }
            self.lemma_map_is_relation();
            let m1 = self.block_by_peer();
            let want = m0.insert(peer@, block);
            assert forall|p: Seq<u8>| m1.contains_key(p) <==> want.contains_key(p) by {
                if m1.contains_key(p) {
                    assert(m1.contains_pair(p, m1[p]));
                    assert(maps_to(es1, p, m1[p]));
                    if p != peer@ {
                        assert(m0.contains_pair(p, m1[p]));
                    }
                }
                if want.contains_key(p) {
                    if p != peer@ {
                        assert(m0.contains_pair(p, m0[p]));
                        assert(maps_to(es1, p, m0[p]));
                        assert(m1.contains_pair(p, m0[p]));
                    } else {
                        assert(maps_to(es1, p, block));
                        assert(m1.contains_pair(p, block));
                    }
                }
            }
            assert forall|p: Seq<u8>| m1.contains_key(p) implies m1[p] == want[p] by {
                assert(m1.contains_pair(p, m1[p]));
                assert(maps_to(es1, p, m1[p]));
                if p != peer@ {
                    assert(m0.contains_pair(p, m1[p]));
                }
            }
            assert(m1 =~= want);
        }
    }

    /// Forgets `peer`.  Unknown peers are ignored.
    pub fn remove_peer(&mut self, peer: H256)
        requires
            old(self).wf(),
        ensures
            final(self).wf(),
            final(self).block_by_peer() == old(self).block_by_peer().remove(peer@),
    {
        let ghost es0 = self.block_by_peer@;
        let ghost bs0 = self.peers_by_block@;
        let ghost m0 = self.block_by_peer();
        proof {
            self.lemma_map_is_relation();
        }
        match find_entry(&self.block_by_peer, &peer) {
            None => {
                proof {
                    assert forall|b: u64| !maps_to(es0, peer@, b) by {
                        if maps_to(es0, peer@, b) {
                            let i = choose|i: int| maps_at(es0, i, peer@, b);
                            assert(maps_at(es0, i, peer@, b));
                        }
                    }
                    assert(!m0.contains_key(peer@)) by {
                        if m0.contains_key(peer@) {
                            assert(m0.contains_pair(peer@, m0[peer@]));
                        }
                    }
                    assert(m0 =~= m0.remove(peer@));
                }
            },
            Some(i) => {
                let block = self.block_by_peer[i].block;
                self.block_by_peer.remove(i);
                proof {
                    assert(maps_at(es0, i as int, peer@, block));
                    lemma_remove_entry(es0, self.block_by_peer@, i as int, peer@);
                    assert forall|b: u64| in_bucket(bs0, b, peer@) implies b == block by {
                        lemma_single_block(es0, peer@, b, block);
                    }
                }
                unlink(&mut self.peers_by_block, &peer, block);
                proof {
                    let es1 = self.block_by_peer@;
                    let bs1 = self.peers_by_block@;
                    assert forall|p: Seq<u8>, b: u64| #[trigger]
                        maps_to(es1, p, b) <==> #[trigger] in_bucket(bs1, b, p) by {
                        assert(maps_to(es0, p, b) <==> in_bucket(bs0, b, p));
                    }
                    self.lemma_map_is_relation();
                    let m1 = self.block_by_peer();
                    let want = m0.remove(peer@);
                    assert forall|p: Seq<u8>| m1.contains_key(p) <==> want.contains_key(p) by {
                        if m1.contains_key(p) {
                            assert(m1.contains_pair(p, m1[p]));
                            assert(maps_to(es1, p, m1[p]));
                            assert(m0.contains_pair(p, m1[p]));
                        }
                        if want.contains_key(p) {
                            assert(m0.contains_pair(p, m0[p]));
                            assert(maps_to(es1, p, m0[p]));
                            assert(m1.contains_pair(p, m0[p]));
                        }
                    }
                    assert forall|p: Seq<u8>| m1.contains_key(p) implies m1[p] == want[p] by {
                        assert(m1.contains_pair(p, m1[p]));
                        assert(maps_to(es1, p, m1[p]));
                        assert(m0.contains_pair(p, m1[p]));
                    }
                    assert(m1 =~= want);
                }
            },
        }
    }
    /// Slot `(k, a)` of the buckets is what the map says of its peer.
    proof fn lemma_slot_in_map(&self, k: int, a: int)
        requires
            self.wf(),
            0 <= k < self.peers_by_block@.len(),
            0 <= a < self.peers_by_block@[k].peers@.len(),
        ensures
            self.block_by_peer().contains_pair(
                self.peers_by_block@[k].peers@[a]@,
                self.peers_by_block@[k].block,
            ),
    {
        let bs = self.peers_by_block@;
        let p = bs[k].peers@[a]@;
        let b = bs[k].block;
        self.lemma_map_is_relation();
        assert(holds_at(bs, k, a, b, p));
        assert(in_bucket(bs, b, p));
        assert(maps_to(self.block_by_peer@, p, b));
    }

    /// Every peer whose best block is at least `block`, each exactly once,
    /// in ascending order of best block.
    pub fn peers_with_min_block(&self, block: u64) -> (out: Vec<H256>)
        requires
            self.wf(),
        ensures
            forall|x: int|
                0 <= x < out@.len() ==> self.block_by_peer().contains_key(#[trigger] out@[x]@)
                    && self.block_by_peer()[out@[x]@] >= block,
            forall|p: Seq<u8>|
                self.block_by_peer().contains_key(p) && #[trigger] self.block_by_peer()[p] >= block
                    ==> exists|x: int| 0 <= x < out@.len() && #[trigger] out@[x]@ == p,
            forall|x: int, y: int|
                0 <= x < y < out@.len() ==> #[trigger] out@[x]@ != #[trigger] out@[y]@,
            forall|x: int, y: int|
                0 <= x < y < out@.len() ==> self.block_by_peer()[#[trigger] out@[x]@]
                    <= self.block_by_peer()[#[trigger] out@[y]@],
    {
        let mut out: Vec<H256> = Vec::new();
        let ghost mut pos: Seq<(int, int)> = Seq::empty();
        let mut k: usize = 0;
        while k < self.peers_by_block.len()
            invariant
                self.wf(),
                k <= self.peers_by_block@.len(),
                pos.len() == out@.len(),
                forall|x: int|
                    0 <= x < pos.len() ==> {
                        &&& 0 <= (#[trigger] pos[x]).0 < k
                        &&& 0 <= pos[x].1 < self.peers_by_block@[pos[x].0].peers@.len()
                        &&& self.peers_by_block@[pos[x].0].peers@[pos[x].1] == out@[x]
                        &&& self.peers_by_block@[pos[x].0].block >= block
                    },
                forall|x: int, y: int|
                    0 <= x < y < pos.len() ==> (#[trigger] pos[x]).0 < (#[trigger] pos[y]).0 || (
                    pos[x].0 == pos[y].0 && pos[x].1 < pos[y].1),
                forall|k2: int, a2: int|
                    0 <= k2 < k && 0 <= a2 < self.peers_by_block@[k2].peers@.len()
                        && self.peers_by_block@[k2].block >= block ==> #[trigger] listed(pos, k2, a2),
            decreases self.peers_by_block@.len() - k,
        {
            if self.peers_by_block[k].block >= block {
                let mut a: usize = 0;
                while a < self.peers_by_block[k].peers.len()
                    invariant
                        self.wf(),
                        k < self.peers_by_block@.len(),
                        self.peers_by_block@[k as int].block >= block,
                        a <= self.peers_by_block@[k as int].peers@.len(),
                        pos.len() == out@.len(),
                        forall|x: int|
                            0 <= x < pos.len() ==> {
                                &&& 0 <= (#[trigger] pos[x]).0 <= k
                                &&& pos[x].0 == k ==> pos[x].1 < a
                                &&& 0 <= pos[x].1 < self.peers_by_block@[pos[x].0].peers@.len()
                                &&& self.peers_by_block@[pos[x].0].peers@[pos[x].1] == out@[x]
                                &&& self.peers_by_block@[pos[x].0].block >= block
                            },
                        forall|x: int, y: int|
                            0 <= x < y < pos.len() ==> (#[trigger] pos[x]).0 < (#[trigger] pos[y]).0
                                || (pos[x].0 == pos[y].0 && pos[x].1 < pos[y].1),
                        forall|k2: int, a2: int|
                            0 <= k2 < k && 0 <= a2 < self.peers_by_block@[k2].peers@.len()
                                && self.peers_by_block@[k2].block >= block ==> #[trigger] listed(pos, k2, a2),
                        forall|a2: int|
                            0 <= a2 < a ==> #[trigger] listed(pos, k as int, a2),
                    decreases self.peers_by_block@[k as int].peers@.len() - a,
                {
                    let ghost prev = pos;
                    out.push(self.peers_by_block[k].peers[a]);
                    proof {
                        pos = pos.push((k as int, a as int));
                        assert forall|k2: int, a2: int|
                            0 <= k2 < k && 0 <= a2 < self.peers_by_block@[k2].peers@.len()
                                && self.peers_by_block@[k2].block >= block implies #[trigger] listed(pos, k2, a2) by {
                            assert(listed(prev, k2, a2));
                            let x = choose|x: int| 0 <= x < prev.len() && #[trigger] prev[x] == (k2, a2);
                            assert(pos[x] == prev[x]);
                        }
                        assert forall|a2: int| 0 <= a2 < a + 1 implies #[trigger] listed(pos, k as int, a2) by {
                            if a2 < a {
                                assert(listed(prev, k as int, a2));
                                let x = choose|x: int| 0 <= x < prev.len() && #[trigger] prev[x] == (k as int, a2);
                                assert(pos[x] == prev[x]);
                            } else {
                                assert(pos[prev.len() as int] == (k as int, a2));
                            }
                        }
                    }
                    a += 1;
                }
            }
            k += 1;
        }
        proof {
            let bs = self.peers_by_block@;
            let m = self.block_by_peer();
            self.lemma_map_is_relation();
            assert forall|x: int| 0 <= x < out@.len() implies m.contains_key(#[trigger] out@[x]@)
                && m[out@[x]@] >= block by {
                self.lemma_slot_in_map(pos[x].0, pos[x].1);
            }
            assert forall|p: Seq<u8>| m.contains_key(p) && #[trigger] m[p] >= block implies exists|
                x: int,
            | 0 <= x < out@.len() && #[trigger] out@[x]@ == p by {
                assert(m.contains_pair(p, m[p]));
                assert(maps_to(self.block_by_peer@, p, m[p]));
                assert(in_bucket(bs, m[p], p));
                let (k2, a2) = choose|k2: int, a2: int| holds_at(bs, k2, a2, m[p], p);
                assert(holds_at(bs, k2, a2, m[p], p));
                assert(listed(pos, k2, a2));
                let x = choose|x: int| 0 <= x < pos.len() && #[trigger] pos[x] == (k2, a2);
                assert(out@[x]@ == p);
            }
            assert forall|x: int, y: int| 0 <= x < y < out@.len() implies #[trigger] out@[x]@
                != #[trigger] out@[y]@ by {
                self.lemma_slot_in_map(pos[x].0, pos[x].1);
                self.lemma_slot_in_map(pos[y].0, pos[y].1);
                if out@[x]@ == out@[y]@ {
                    assert(bs[pos[x].0].block == bs[pos[y].0].block);
                    if pos[x].0 < pos[y].0 {
                        assert(bs[pos[x].0].block < bs[pos[y].0].block);
                    }
                    assert(bs[pos[x].0].peers@[pos[x].1]@ != bs[pos[x].0].peers@[pos[y].1]@);
                }
            }
            assert forall|x: int, y: int| 0 <= x < y < out@.len() implies m[#[trigger] out@[x]@]
                <= m[#[trigger] out@[y]@] by {
                self.lemma_slot_in_map(pos[x].0, pos[x].1);
                self.lemma_slot_in_map(pos[y].0, pos[y].1);
                if pos[x].0 < pos[y].0 {
                    assert(bs[pos[x].0].block < bs[pos[y].0].block);
                }
            }
        }
        out
    }

    /// The best block recorded for `peer`, if the peer is tracked.
    pub fn block_of(&self, peer: &H256) -> (out: Option<u64>)
        requires
            self.wf(),
        ensures
            out == (if self.block_by_peer().contains_key(peer@) {
                Some(self.block_by_peer()[peer@])
            } else {
                None
            }),
    {
        proof {
            self.lemma_map_is_relation();
        }
        match find_entry(&self.block_by_peer, peer) {
            Some(i) => {
                let b = self.block_by_peer[i].block;
                proof {
                    assert(maps_at(self.block_by_peer@, i as int, peer@, b));
                    assert(self.block_by_peer().contains_pair(peer@, b));
                }
                Some(b)
            },
            None => {
                proof {
                    if self.block_by_peer().contains_key(peer@) {
                        let b = self.block_by_peer()[peer@];
                        assert(self.block_by_peer().contains_pair(peer@, b));
                        let i = choose|i: int| maps_at(self.block_by_peer@, i, peer@, b);
                        assert(maps_at(self.block_by_peer@, i, peer@, b));
                    }
                }
                None
            },
        }
    }

    /// The peers whose best block is exactly `block`, each once.
    pub fn peers_at(&self, block: u64) -> (out: Vec<H256>)
        requires
            self.wf(),
        ensures
            forall|p: Seq<u8>|
                (exists|x: int| 0 <= x < out@.len() && #[trigger] out@[x]@ == p)
                    <==> #[trigger] self.block_by_peer().contains_pair(p, block),
            forall|x: int, y: int|
                0 <= x < y < out@.len() ==> #[trigger] out@[x]@ != #[trigger] out@[y]@,
            out@.len() > 0 <==> self.peers_by_block().contains_key(block),
    {
        let ghost bs = self.peers_by_block@;
        proof {
            self.lemma_map_is_relation();
        }
        match find_bucket(&self.peers_by_block, block) {
            Ok(k) => {
                let out = self.peers_by_block[k].peers.clone();
                proof {
                    assert(out@ =~= bs[k as int].peers@);
                    assert(bucket_at(bs, k as int, block));
                    assert forall|p: Seq<u8>|
                        (exists|x: int| 0 <= x < out@.len() && #[trigger] out@[x]@ == p)
                            <==> #[trigger] self.block_by_peer().contains_pair(p, block) by {
                        if exists|x: int| 0 <= x < out@.len() && #[trigger] out@[x]@ == p {
                            let x = choose|x: int| 0 <= x < out@.len() && #[trigger] out@[x]@ == p;
                            self.lemma_slot_in_map(k as int, x);
                        }
                        if self.block_by_peer().contains_pair(p, block) {
                            assert(maps_to(self.block_by_peer@, p, block));
                            assert(in_bucket(bs, block, p));
                            let (k2, a2) = choose|k2: int, a2: int| holds_at(bs, k2, a2, block, p);
                            assert(holds_at(bs, k2, a2, block, p));
                            if k2 < k {
                                assert(bs[k2].block < bs[k as int].block);
                            } else if k2 > k {
                                assert(bs[k as int].block < bs[k2].block);
                            }
                            assert(out@[a2]@ == p);
                        }
                    }
                }
                out
            },
            Err(_) => {
                let out: Vec<H256> = Vec::new();
                proof {
                    assert forall|p: Seq<u8>| !self.block_by_peer().contains_pair(p, block) by {
                        if self.block_by_peer().contains_pair(p, block) {
                            assert(maps_to(self.block_by_peer@, p, block));
                            assert(in_bucket(bs, block, p));
                            let (k2, a2) = choose|k2: int, a2: int| holds_at(bs, k2, a2, block, p);
                            assert(holds_at(bs, k2, a2, block, p));
                        }
                    }
                    if has_bucket(bs, block) {
                        let k2 = choose|k2: int| bucket_at(bs, k2, block);
                        assert(bucket_at(bs, k2, block));
                    }
                }
                out
            },
        }
    }

    /// Number of tracked peers.
    pub fn len(&self) -> (n: usize)
        requires
            self.wf(),
        ensures
            self.block_by_peer().dom().finite(),
            n == self.block_by_peer().dom().len(),
    {
        proof {
            lemma_peer_count(self.block_by_peer@);
            assert(self.block_by_peer().dom() =~= known_peers(self.block_by_peer@));
        }
        self.block_by_peer.len()
    }

    /// The blocks that have a bucket, in ascending order.
    pub fn blocks(&self) -> (out: Vec<u64>)
        requires
            self.wf(),
        ensures
            forall|b: u64|
                (exists|x: int| 0 <= x < out@.len() && #[trigger] out@[x] == b)
                    <==> #[trigger] self.peers_by_block().contains_key(b),
            forall|x: int, y: int| 0 <= x < y < out@.len() ==> out@[x] < out@[y],
    {
        let mut out: Vec<u64> = Vec::new();
        let mut k: usize = 0;
        while k < self.peers_by_block.len()
            invariant
                k <= self.peers_by_block@.len(),
                out@.len() == k,
                forall|x: int| 0 <= x < k ==> out@[x] == self.peers_by_block@[x].block,
            decreases self.peers_by_block@.len() - k,
        {
            out.push(self.peers_by_block[k].block);
            k += 1;
        }
        proof {
            let bs = self.peers_by_block@;
            assert forall|b: u64|
                (exists|x: int| 0 <= x < out@.len() && #[trigger] out@[x] == b)
                    <==> #[trigger] self.peers_by_block().contains_key(b) by {
                if exists|x: int| 0 <= x < out@.len() && #[trigger] out@[x] == b {
                    let x = choose|x: int| 0 <= x < out@.len() && #[trigger] out@[x] == b;
                    assert(bucket_at(bs, x, b));
                }
                if self.peers_by_block().contains_key(b) {
                    let k2 = choose|k2: int| bucket_at(bs, k2, b);
                    assert(bucket_at(bs, k2, b));
                    assert(out@[k2] == b);
                }
            }
        }
        out
    }

    /// The two directions of the index agree: a peer stands on a block in
    /// one direction exactly when it does in the other (so no peer is filed
    /// under two blocks), no block keeps an empty peer set, and the
    /// per-block view is the inverse image of the per-peer view.
    pub proof fn index_is_consistent(&self)
        requires
            self.wf(),
        ensures
            forall|p: Seq<u8>, b: u64|
                #[trigger] self.block_by_peer().contains_pair(p, b) <==> (
                self.peers_by_block().contains_key(b) && self.peers_by_block()[b].contains(p)),
            forall|b: u64|
                self.peers_by_block().contains_key(b) ==> exists|p: Seq<u8>|
                    (#[trigger] self.peers_by_block()[b]).contains(p),
            self.peers_by_block() == by_block(self.block_by_peer()),
    {
        let es = self.block_by_peer@;
        let bs = self.peers_by_block@;
        let m = self.block_by_peer();
        let q = self.peers_by_block();
        self.lemma_map_is_relation();
        assert forall|p: Seq<u8>, b: u64| #[trigger]
            m.contains_pair(p, b) <==> (q.contains_key(b) && q[b].contains(p)) by {
            assert(maps_to(es, p, b) <==> in_bucket(bs, b, p));
            if in_bucket(bs, b, p) {
                let (k, a) = choose|k: int, a: int| holds_at(bs, k, a, b, p);
                assert(holds_at(bs, k, a, b, p));
                assert(bucket_at(bs, k, b));
            }
        }
        assert forall|b: u64| q.contains_key(b) implies exists|p: Seq<u8>|
            (#[trigger] q[b]).contains(p) by {
            let k = choose|k: int| bucket_at(bs, k, b);
            assert(bucket_at(bs, k, b));
            assert(bs[k].peers@.len() > 0);
            let p = bs[k].peers@[0]@;
            assert(holds_at(bs, k, 0, b, p));
            assert(q[b].contains(p));
        }
        let want = by_block(m);
        assert forall|b: u64| q.contains_key(b) <==> want.contains_key(b) by {
            if q.contains_key(b) {
                let p = choose|p: Seq<u8>| q[b].contains(p);
                assert(q[b].contains(p));
                assert(m.contains_pair(p, b));
            }
            if want.contains_key(b) {
                let p = choose|p: Seq<u8>| m.contains_pair(p, b);
                assert(m.contains_pair(p, b));
            }
        }
        assert forall|b: u64| q.contains_key(b) implies q[b] =~= want[b] by {
            assert forall|p: Seq<u8>| q[b].contains(p) <==> want[b].contains(p) by {
                assert(m.contains_pair(p, b) <==> (q.contains_key(b) && q[b].contains(p)));
            }
        }
        assert(q =~= want);
    }
}

} // verus!
