//! The score board: which nodes a query has brought up, with the best score of each.

use std::collections::HashMap;

use vstd::prelude::*;

use crate::model::{F32Bits, NodeId};
use crate::rank;

verus! {

broadcast use vstd::std_specs::hash::group_hash_axioms;

/// Why a node was brought up: it is close in meaning, it holds words of the query, or it is
/// recent.
#[derive(Debug, Clone, Copy, PartialEq, Eq, Structural)]
pub enum Why {
    Semantic,
    Lexical,
    Recency,
}

impl Why {
    /// The name of a reason.
    pub open spec fn name(self) -> Seq<char> {
        match self {
            Why::Semantic => "semantic"@,
            Why::Lexical => "lexical"@,
            Why::Recency => "recency"@,
        }
    }

    /// The name of a reason.
    pub fn tag(self) -> (r: &'static str)
        ensures
            r@ == self.name(),
    {
        match self {
            Why::Semantic => "semantic",
            Why::Lexical => "lexical",
            Why::Recency => "recency",
        }
    }
}

/// A node on the board.
#[derive(Debug, Clone, Copy)]
pub struct Hit {
    pub id: NodeId,
    pub score: F32Bits,
    pub why: Why,
}

/// What a board holds: the nodes in the order in which they came, and the best score of each
/// with its reason.
#[verifier::ext_equal]
pub struct BoardV {
    pub ids: Seq<NodeId>,
    pub best: Map<NodeId, (F32Bits, Why)>,
}

/// The board that holds nothing.
pub open spec fn empty_board() -> BoardV {
    BoardV { ids: Seq::empty(), best: Map::empty() }
}

/// The board after a score: it stands where it is the first of its node or greater than the
/// one before.
pub open spec fn bumped(b: BoardV, id: NodeId, score: F32Bits, why: Why) -> BoardV {
    if !b.best.contains_key(id) {
        BoardV { ids: b.ids.push(id), best: b.best.insert(id, (score, why)) }
    } else if rank::exceeds(score, b.best[id].0) {
        BoardV { ids: b.ids, best: b.best.insert(id, (score, why)) }
    } else {
        b
    }
}

/// The hits of a board, in the order in which they came.
pub open spec fn hits_of(b: BoardV) -> Seq<Hit> {
    b.ids.map_values(|id: NodeId| Hit { id, score: b.best[id].0, why: b.best[id].1 })
}

/// Whether the ids of a board are those with a score, each once.
pub open spec fn well_kept(b: BoardV) -> bool {
    &&& b.ids.no_duplicates()
    &&& forall|id: NodeId| #[trigger] b.best.contains_key(id) <==> b.ids.contains(id)
}

/// The score board.
pub struct Board {
    hits: Vec<Hit>,
    /// Where the hit of a node stands in `hits`.
    pos: HashMap<NodeId, usize>,
}

impl View for Board {
    type V = BoardV;

    closed spec fn view(&self) -> BoardV {
        BoardV {
            ids: self.hits@.map_values(|h: Hit| h.id),
            best: self.pos@.map_values(|i: usize| (self.hits@[i as int].score, self.hits@[i as int].why)),
        }
    }
}

impl Board {
    /// The positions agree with the hits.
    pub closed spec fn wf(self) -> bool {
        &&& forall|id: NodeId| #[trigger]
            self.pos@.contains_key(id) ==> self.pos@[id] < self.hits@.len()
                && self.hits@[self.pos@[id] as int].id == id
        &&& forall|i: int|
            0 <= i < self.hits@.len() ==> self.pos@.contains_key((#[trigger] self.hits@[i]).id)
                && self.pos@[self.hits@[i].id] == i
    }

    /// An empty board.
    pub fn new() -> (r: Board)
        ensures
            r.wf(),
            r@ == empty_board(),
    {
        let r = Board { hits: Vec::new(), pos: HashMap::new() };
        assert(r@ =~= empty_board());
        r
    }

    /// Whether no node was brought up.
    pub fn is_empty(&self) -> (r: bool)
        ensures
            r == (self@.ids.len() == 0),
    {
        self.hits.len() == 0
    }

    /// The ids of a board are those with a score, each once.
    pub proof fn shape(&self)
        requires
            self.wf(),
        ensures
            well_kept(self@),
    {
        let b = self@;
        assert forall|i: int, j: int| 0 <= i < j < b.ids.len() implies b.ids[i] != b.ids[j] by {
            assert(self.hits@[i].id == b.ids[i] && self.hits@[j].id == b.ids[j]);
        }
        assert forall|id: NodeId| #[trigger] b.best.contains_key(id) <==> b.ids.contains(id) by {
            if b.best.contains_key(id) {
                assert(self.pos@.contains_key(id));
                assert(b.ids[self.pos@[id] as int] == id);
            }
            if b.ids.contains(id) {
                let i = choose|i: int| 0 <= i < b.ids.len() && b.ids[i] == id;
                assert(self.hits@[i].id == id);
            }
        }
    }

    /// The hits, in the order in which they came.
    pub fn hits(&self) -> (r: &Vec<Hit>)
        requires
            self.wf(),
        ensures
            r@ == hits_of(self@),
    {
        assert forall|i: int| 0 <= i < self.hits@.len() implies #[trigger] self.hits@[i] == hits_of(
            self@,
        )[i] by {
            let h = self.hits@[i];
            assert(self.pos@.contains_key(h.id));
            assert(self@.ids[i] == h.id);
            assert(self@.best[h.id] == (h.score, h.why));
        }
        assert(self.hits@ =~= hits_of(self@));
        &self.hits
    }

    /// Takes in a score.
    pub fn bump(&mut self, id: NodeId, score: F32Bits, why: Why)
        requires
            old(self).wf(),
        ensures
            final(self).wf(),
            final(self)@ == bumped(old(self)@, id, score, why),
    {
        let ghost before = *self;
        let at: Option<usize> = match self.pos.get(&id) {
            Some(i) => Some(*i),
            None => None,
        };
        match at {
            Some(i) => {
                assert(before@.best.contains_key(id));
                assert(before@.best[id] == (self.hits@[i as int].score, self.hits@[i as int].why));
                if rank::greater(score, self.hits[i].score) {
                    self.hits.set(i, Hit { id, score, why });
                    assert(self@.ids =~= before@.ids);
                    assert forall|x: NodeId| self.pos@.contains_key(x) && x != id implies
                        #[trigger] self.pos@[x] != i by {
                        assert(before.hits@[before.pos@[x] as int].id == x);
                    }
                    assert(self@.best =~= before@.best.insert(id, (score, why)));
                }
            },
            None => {
                let n: usize = self.hits.len();
                self.pos.insert(id, n);
                self.hits.push(Hit { id, score, why });
                assert(self@.ids =~= before@.ids.push(id));
                assert(self@.best =~= before@.best.insert(id, (score, why)));
            },
        }
    }
}

// ---------------------------------------------------------------------------
// Laws
// ---------------------------------------------------------------------------

/// A score never lowers another: what stood on the board is not greater than what stands there
/// after a score, and neither is the score itself.
pub proof fn bumping_keeps_the_best(b: BoardV, id: NodeId, score: F32Bits, why: Why)
    ensures
        ({
            let after = bumped(b, id, score, why);
            &&& after.best.contains_key(id) && !rank::exceeds(score, after.best[id].0)
            &&& forall|x: NodeId| #[trigger]
                b.best.contains_key(x) ==> after.best.contains_key(x) && !rank::exceeds(
                    b.best[x].0,
                    after.best[x].0,
                )
        }),
{
}

/// Scores keep a board well kept.
pub proof fn bumping_keeps_the_board(b: BoardV, id: NodeId, score: F32Bits, why: Why)
    requires
        well_kept(b),
    ensures
        well_kept(bumped(b, id, score, why)),
{
    let after = bumped(b, id, score, why);
    if !b.best.contains_key(id) {
        assert(!b.ids.contains(id));
        assert forall|x: NodeId| #[trigger] after.best.contains_key(x) <==> after.ids.contains(x) by {
            if after.ids.contains(x) {
                let i = choose|i: int| 0 <= i < after.ids.len() && after.ids[i] == x;
                if i < b.ids.len() {
                    assert(b.ids[i] == x);
                    assert(b.ids.contains(x));
                }
            }
            if after.best.contains_key(x) {
                if x == id {
                    assert(after.ids[b.ids.len() as int] == id);
                } else {
                    let i = choose|i: int| 0 <= i < b.ids.len() && b.ids[i] == x;
                    assert(after.ids[i] == x);
                }
            }
        }
        assert forall|i: int, j: int| 0 <= i < j < after.ids.len() implies after.ids[i]
            != after.ids[j] by {
            assert(b.ids[i] == after.ids[i]);
            assert(b.ids.contains(b.ids[i]));
        }
    } else {
        assert forall|x: NodeId| #[trigger] after.best.contains_key(x) <==> after.ids.contains(x) by {
            assert(after.best.contains_key(x) == b.best.contains_key(x));
        }
    }
}

/// A first or greater score stands with its own reason; a score that is not greater changes
/// nothing. No other node is touched, and a new node comes behind all the others.
pub proof fn greater_scores_stand(b: BoardV, id: NodeId, score: F32Bits, why: Why, other: NodeId)
    ensures
        !b.best.contains_key(id) ==> bumped(b, id, score, why).best[id] == (score, why) && bumped(
            b,
            id,
            score,
            why,
        ).ids == b.ids + seq![id],
        b.best.contains_key(id) && rank::exceeds(score, b.best[id].0) ==> bumped(
            b,
            id,
            score,
            why,
        ).best[id] == (score, why) && bumped(b, id, score, why).ids == b.ids,
        b.best.contains_key(id) && !rank::exceeds(score, b.best[id].0) ==> bumped(
            b,
            id,
            score,
            why,
        ) == b,
        other != id ==> bumped(b, id, score, why).best.contains_key(other) == b.best.contains_key(
            other,
        ) && bumped(b, id, score, why).best[other] == b.best[other],
{
    assert(b.ids.push(id) =~= b.ids + seq![id]);
}

/// The hits of a board are its nodes in the order in which they came, each with its best score
/// and the reason of that score.
pub proof fn hits_say_what_stands(b: BoardV, i: int)
    requires
        0 <= i < b.ids.len(),
    ensures
        hits_of(b).len() == b.ids.len(),
        hits_of(b)[i].id == b.ids[i],
        hits_of(b)[i].score == b.best[b.ids[i]].0,
        hits_of(b)[i].why == b.best[b.ids[i]].1,
{
}

} // verus!
