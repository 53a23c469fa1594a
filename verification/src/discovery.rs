//! The discovery aggregator: one stream of candidates out of several
//! sources of peer addresses.
//!
//! The sources are asked in turn.  Whoever runs them says of every source
//! what it has to offer at the moment, and the aggregator decides whose
//! candidate goes out next.  It starts with the source after the one that
//! was served last, so that no source with a candidate waits for more than
//! one round; a source that failed is passed over; and while no new peers
//! are wanted nothing goes out at all.

use vstd::prelude::*;
use crate::config::DiscoverySource;
use crate::node_record::NodeRecord;

verus! {

/// What a source has to offer when it is asked.
#[derive(Clone, Copy, Debug, PartialEq, Eq)]
pub enum Polled {
    /// Nothing yet.
    Pending,
    /// A candidate.
    Record(NodeRecord),
    /// The source failed this time; it may be asked again.
    Failed,
}

/// The position after `i` in a round of `n` positions.
pub open spec fn next_index(i: int, n: int) -> int {
    if i + 1 >= n {
        0
    } else {
        i + 1
    }
}

/// The first position with a candidate among the next `steps` positions of
/// the round, starting at `i`.
pub open spec fn pick_from(polled: Seq<Polled>, i: int, steps: nat) -> Option<int>
    decreases steps,
{
    if steps == 0 {
        None
    } else if polled[i] is Record {
        Some(i)
    } else {
        pick_from(polled, next_index(i, polled.len() as int), (steps - 1) as nat)
    }
}

/// The first position with a candidate in the round that starts at `cursor`.
pub open spec fn pick(polled: Seq<Polled>, cursor: int) -> Option<int> {
    pick_from(polled, cursor, polled.len())
}

/// How many positions of the round that starts at `cursor` come before `j`.
pub open spec fn turns_until(cursor: int, j: int, n: int) -> int {
    if j >= cursor {
        j - cursor
    } else {
        n - cursor + j
    }
}

/// The state of the aggregator, as a mathematical value.
pub struct AggregatorView {
    /// The sources, in the order of the round.
    pub sources: Seq<DiscoverySource>,
    /// Where the next round starts.
    pub cursor: int,
}

/// Which source goes next.
pub struct Aggregator {
    sources: Vec<DiscoverySource>,
    cursor: usize,
}

impl View for Aggregator {
    type V = AggregatorView;

    closed spec fn view(&self) -> AggregatorView {
        AggregatorView { sources: self.sources@, cursor: self.cursor as int }
    }
}

impl AggregatorView {
    /// The cursor stands at a source, or at zero where there is none.
    pub open spec fn wf(self) -> bool {
        0 <= self.cursor && (self.cursor < self.sources.len() || self.cursor == 0)
    }

    /// The candidate that goes out, with the source it comes from, if one
    /// goes out: none while no new peers are wanted, and otherwise that of
    /// the first source of the round that has one.
    pub open spec fn selection(self, polled: Seq<Polled>, no_new_peers: bool) -> Option<
        (DiscoverySource, NodeRecord),
    > {
        if no_new_peers {
            None
        } else {
            match pick(polled, self.cursor) {
                None => None,
                Some(i) => Some((self.sources[i], polled[i]->Record_0)),
            }
        }
    }

    /// The state after a selection: the next round starts after the source
    /// that was served, if one was.
    pub open spec fn after_selection(self, polled: Seq<Polled>, no_new_peers: bool) -> AggregatorView {
        if no_new_peers {
            self
        } else {
            match pick(polled, self.cursor) {
                None => self,
                Some(i) => AggregatorView {
                    sources: self.sources,
                    cursor: next_index(i, self.sources.len() as int),
                },
            }
        }
    }
}

/// What a search of the round finds lies in the round and has a candidate,
/// and no position before it in the round has one; a search that finds
/// nothing has seen no candidate.
proof fn lemma_pick_from(polled: Seq<Polled>, i: int, steps: nat, j: int)
    requires
        0 <= i < polled.len(),
        0 <= j < polled.len(),
        steps <= polled.len(),
    ensures
        match pick_from(polled, i, steps) {
            Some(p) => {
                &&& 0 <= p < polled.len()
                &&& polled[p] is Record
                &&& turns_until(i, p, polled.len() as int) < steps
                &&& polled[j] is Record ==> turns_until(i, p, polled.len() as int) <= turns_until(
                    i,
                    j,
                    polled.len() as int,
                )
            },
            None => polled[j] is Record ==> turns_until(i, j, polled.len() as int) >= steps,
        },
    decreases steps,
{
    let n = polled.len() as int;
    if steps > 0 && !(polled[i] is Record) {
        let i2 = next_index(i, n);
        lemma_pick_from(polled, i2, (steps - 1) as nat, j);
        match pick_from(polled, i2, (steps - 1) as nat) {
            Some(p) => {
                assert(turns_until(i, p, n) == turns_until(i2, p, n) + 1) by {
                    if p == i {
                        assert(turns_until(i2, p, n) == n - 1);
                    }
                }
                if polled[j] is Record {
                    assert(j != i);
                    assert(turns_until(i, j, n) == turns_until(i2, j, n) + 1);
                }
            },
            None => {
                if polled[j] is Record {
                    assert(j != i);
                    assert(turns_until(i, j, n) == turns_until(i2, j, n) + 1);
                }
            },
        }
    }
}

impl Aggregator {
    /// The representation invariant.
    pub closed spec fn wf(&self) -> bool {
        self@.wf()
    }

    /// An aggregator over `sources` whose first round starts at the first.
    pub fn new(sources: Vec<DiscoverySource>) -> (out: Aggregator)
        ensures
            out.wf(),
            out@.sources == sources@,
            out@.cursor == 0,
    {
        Aggregator { sources, cursor: 0 }
    }

    /// The sources, in the order of the round.
    pub fn sources(&self) -> (out: &Vec<DiscoverySource>)
        ensures
            out@ == self@.sources,
    {
        &self.sources
    }

    /// Decides whose candidate goes out next, given what every source has
    /// to offer.
    pub fn select(&mut self, polled: &Vec<Polled>, no_new_peers: bool) -> (r: Option<
        (DiscoverySource, NodeRecord),
    >)
        requires
            old(self).wf(),
            polled@.len() == old(self)@.sources.len(),
        ensures
            final(self).wf(),
            r == old(self)@.selection(polled@, no_new_peers),
            final(self)@ == old(self)@.after_selection(polled@, no_new_peers),
    {
        if no_new_peers {
            return None;
        }
        let n = self.sources.len();
        let mut i: usize = self.cursor;
        let mut steps: usize = n;
        while steps > 0
            invariant
                n == polled@.len(),
                n == self.sources@.len(),
                steps <= n,
                steps > 0 ==> i < n,
                !no_new_peers,
                self@ == old(self)@,
                pick(polled@, old(self)@.cursor) == pick_from(polled@, i as int, steps as nat),
            decreases steps,
        {
            match polled[i] {
                Polled::Record(record) => {
                    let source = self.sources[i];
                    self.cursor = if i + 1 >= n {
                        0
                    } else {
                        i + 1
                    };
                    return Some((source, record));
                },
                _ => {},
            }
            i = if i + 1 >= n {
                0
            } else {
                i + 1
            };
            steps -= 1;
        }
        None
    }
}

/// No source starves.  The source that is served is the first of the round
/// that has a candidate; and a source that has a candidate and is not
/// served is nearer to its turn afterwards than it was before.
pub proof fn selection_is_fair(a: AggregatorView, polled: Seq<Polled>, j: int)
    requires
        a.wf(),
        polled.len() == a.sources.len(),
        0 <= j < polled.len(),
        polled[j] is Record,
    ensures
        pick(polled, a.cursor) is Some,
        turns_until(a.cursor, pick(polled, a.cursor).unwrap(), polled.len() as int) <= turns_until(
            a.cursor,
            j,
            polled.len() as int,
        ),
        pick(polled, a.cursor).unwrap() != j ==> turns_until(
            a.after_selection(polled, false).cursor,
            j,
            polled.len() as int,
        ) < turns_until(a.cursor, j, polled.len() as int),
{
    lemma_pick_from(polled, a.cursor, polled.len(), j);
}

/// While no new peers are wanted no candidate goes out and the round does
/// not move; and a source that failed takes nobody's turn.
pub proof fn nothing_goes_out_unwanted(a: AggregatorView, polled: Seq<Polled>)
    requires
        a.wf(),
        polled.len() == a.sources.len(),
    ensures
        a.selection(polled, true) is None,
        a.after_selection(polled, true) == a,
        a.after_selection(polled, false).wf(),
        a.selection(polled, false) matches Some((source, record)) ==> exists|i: int|
            0 <= i < polled.len() && #[trigger] polled[i] == Polled::Record(record)
                && a.sources[i] == source,
{
    if polled.len() > 0 {
        lemma_pick_from(polled, a.cursor, polled.len(), 0);
    }
    match a.selection(polled, false) {
        Some((source, record)) => {
            let i = pick(polled, a.cursor).unwrap();
            assert(polled[i] == Polled::Record(record) && a.sources[i] == source);
        },
        None => {},
    }
}

} // verus!
