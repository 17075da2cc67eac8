use vstd::prelude::*;

use crate::types::{precedes, precedes_exec, AggregatorError, GroupKey, HashablePoint, KeyModel};

verus! {

/// The mathematical value of a group: its key, its members in order, and the
/// number of members it may hold.
pub struct GroupModel {
    pub key: KeyModel,
    pub hits: Seq<HashablePoint>,
    pub capacity: nat,
}

/// Members are in group order: every member precedes every later one.
pub open spec fn sorted_hits(s: Seq<HashablePoint>) -> bool {
    forall|i: int, j: int| 0 <= i < j < s.len() ==> #[trigger] precedes(s[i], s[j])
}

/// No two members share an identity.
pub open spec fn distinct_hits(s: Seq<HashablePoint>) -> bool {
    forall|i: int, j: int|
        0 <= i < s.len() && 0 <= j < s.len() && i != j ==> #[trigger] s[i].identity_spec()
            != #[trigger] s[j].identity_spec()
}

/// Some member of `s` has the identity of `p`.
pub open spec fn holds_identity(s: Seq<HashablePoint>, p: HashablePoint) -> bool {
    exists|i: int| 0 <= i < s.len() && #[trigger] s[i].identity_spec() == p.identity_spec()
}

/// The place where `p` goes in the ordered sequence `s`: after every member
/// that precedes it.
pub open spec fn insert_pos(s: Seq<HashablePoint>, p: HashablePoint) -> nat
    decreases s.len(),
{
    if s.len() == 0 {
        0
    } else if precedes(s[0], p) {
        1 + insert_pos(s.drop_first(), p)
    } else {
        0
    }
}

pub open spec fn insert_sorted(s: Seq<HashablePoint>, p: HashablePoint) -> Seq<HashablePoint> {
    s.insert(insert_pos(s, p) as int, p)
}

/// What `Group::try_insert` does: a full group is left as it is, so is a group
/// that already holds the point's identity; otherwise the point takes its place
/// in group order.
pub open spec fn group_insert(g: GroupModel, p: HashablePoint) -> GroupModel {
    if g.hits.len() >= g.capacity || holds_identity(g.hits, p) {
        g
    } else {
        GroupModel { hits: insert_sorted(g.hits, p), ..g }
    }
}

pub proof fn lemma_insert_pos(s: Seq<HashablePoint>, p: HashablePoint)
    ensures
        insert_pos(s, p) <= s.len(),
        forall|j: int| 0 <= j < insert_pos(s, p) ==> precedes(#[trigger] s[j], p),
        insert_pos(s, p) < s.len() ==> !precedes(s[insert_pos(s, p) as int], p),
    decreases s.len(),
{
    if s.len() > 0 && precedes(s[0], p) {
        lemma_insert_pos(s.drop_first(), p);
        assert forall|j: int| 0 <= j < insert_pos(s, p) implies precedes(#[trigger] s[j], p) by {
            if j > 0 {
                assert(s[j] == s.drop_first()[j - 1]);
            }
        }
    }
}

proof fn lemma_insert_pos_at(s: Seq<HashablePoint>, p: HashablePoint, i: int)
    requires
        0 <= i <= s.len(),
        forall|j: int| 0 <= j < i ==> precedes(#[trigger] s[j], p),
        i < s.len() ==> !precedes(s[i], p),
    ensures
        insert_pos(s, p) == i,
    decreases i,
{
    if i > 0 {
        assert forall|j: int| 0 <= j < i - 1 implies precedes(#[trigger] s.drop_first()[j], p) by {
            assert(s.drop_first()[j] == s[j + 1]);
        }
        lemma_insert_pos_at(s.drop_first(), p, i - 1);
    }
}

/// Inserting in group order keeps the order and, for a new identity, keeps the
/// identities distinct.
pub proof fn lemma_insert_sorted(s: Seq<HashablePoint>, p: HashablePoint)
    requires
        sorted_hits(s),
    ensures
        sorted_hits(insert_sorted(s, p)),
        insert_sorted(s, p).len() == s.len() + 1,
        distinct_hits(s) && !holds_identity(s, p) ==> distinct_hits(insert_sorted(s, p)),
        forall|x: HashablePoint|
            #[trigger] insert_sorted(s, p).contains(x) <==> (x == p || s.contains(x)),
{
    lemma_insert_pos(s, p);
    let k = insert_pos(s, p) as int;
    let t = insert_sorted(s, p);
    assert forall|i: int, j: int| 0 <= i < j < t.len() implies #[trigger] precedes(t[i], t[j]) by {
        if i < k && j == k {
        } else if i < k && j > k {
            assert(precedes(s[i], s[j - 1]));
        } else if i == k && j > k {
            assert(precedes(s[k], s[j - 1]));
        } else if i > k {
            assert(precedes(s[i - 1], s[j - 1]));
        } else {
            assert(precedes(s[i], s[j]));
        }
    }
    if distinct_hits(s) && !holds_identity(s, p) {
        assert forall|i: int, j: int|
            0 <= i < t.len() && 0 <= j < t.len() && i != j implies #[trigger] t[i].identity_spec()
            != #[trigger] t[j].identity_spec() by {
            let si = if i < k { i } else { i - 1 };
            let sj = if j < k { j } else { j - 1 };
            if i == k {
                assert(s[sj].identity_spec() != p.identity_spec());
            } else if j == k {
                assert(s[si].identity_spec() != p.identity_spec());
            } else {
                assert(t[i] == s[si] && t[j] == s[sj]);
            }
        }
    }
    assert forall|x: HashablePoint| #[trigger] t.contains(x) <==> (x == p || s.contains(x)) by {
        if t.contains(x) {
            let i = choose|i: int| 0 <= i < t.len() && t[i] == x;
            if i < k {
                assert(s[i] == x);
            } else if i > k {
                assert(s[i - 1] == x);
            }
        }
        if s.contains(x) {
            let i = choose|i: int| 0 <= i < s.len() && s[i] == x;
            if i < k {
                assert(t[i] == x);
            } else {
                assert(t[i + 1] == x);
            }
        }
        if x == p {
            assert(t[k] == x);
        }
    }
}

pub open spec fn group_wf(g: GroupModel) -> bool {
    &&& g.hits.len() <= g.capacity
    &&& sorted_hits(g.hits)
    &&& distinct_hits(g.hits)
}

/// A bucket of points that share one key, held in group order and bounded by
/// its capacity.
#[derive(Debug)]
pub struct Group {
    key: GroupKey,
    hits: Vec<HashablePoint>,
    capacity: usize,
}

impl View for Group {
    type V = GroupModel;

    closed spec fn view(&self) -> GroupModel {
        GroupModel { key: self.key@, hits: self.hits@, capacity: self.capacity as nat }
    }
}

impl Group {
    /// A group is well formed when it respects its capacity, its order and the
    /// uniqueness of its members.
    pub open spec fn wf(&self) -> bool {
        group_wf(self@)
    }

    /// An empty group for `key` that holds at most `capacity` points.
    pub fn new(key: GroupKey, capacity: usize) -> (r: Group)
        ensures
            r.wf(),
            r@ == (GroupModel { key: key@, hits: Seq::empty(), capacity: capacity as nat }),
    {
        Group { key, hits: Vec::new(), capacity }
    }

    /// Adds `point` in group order. A full group refuses it with `GroupFull` and
    /// stays as it is; a point whose identity is already a member is a no-op.
    pub fn try_insert(&mut self, point: HashablePoint) -> (r: Result<(), AggregatorError>)
        requires
            old(self).wf(),
        ensures
            final(self).wf(),
            final(self)@ == group_insert(old(self)@, point),
            r == (if old(self)@.hits.len() >= old(self)@.capacity {
                Err(AggregatorError::GroupFull)
            } else {
                Ok(())
            }),
    {
        if self.hits.len() >= self.capacity {
            return Err(AggregatorError::GroupFull);
        }
        let id = point.identity();
        let mut i: usize = 0;
        while i < self.hits.len()
            invariant
                0 <= i <= self.hits.len(),
                self@ == old(self)@,
                group_wf(old(self)@),
                self.hits@.len() < self.capacity,
                id == point.identity_spec(),
                forall|j: int| 0 <= j < i ==> #[trigger] self.hits@[j].identity_spec() != id,
            decreases self.hits.len() - i,
        {
            if self.hits[i].identity() == id {
                assert(self.hits@[i as int].identity_spec() == point.identity_spec());
                assert(holds_identity(old(self)@.hits, point));
                return Ok(());
            }
            i = i + 1;
        }
        assert(!holds_identity(self.hits@, point));
        let mut pos: usize = 0;
        while pos < self.hits.len() && precedes_exec(&self.hits[pos], &point)
            invariant
                0 <= pos <= self.hits.len(),
                self@ == old(self)@,
                forall|j: int| 0 <= j < pos ==> precedes(#[trigger] self.hits@[j], point),
            decreases self.hits.len() - pos,
        {
            pos = pos + 1;
        }
        proof {
            lemma_insert_pos_at(self.hits@, point, pos as int);
            lemma_insert_sorted(self.hits@, point);
        }
        self.hits.insert(pos, point);
        Ok(())
    }

    pub fn is_full(&self) -> (r: bool)
        ensures
            r == (self@.hits.len() >= self@.capacity),
    {
        self.hits.len() >= self.capacity
    }

    pub fn key(&self) -> (r: &GroupKey)
        ensures
            r@ == self@.key,
    {
        &self.key
    }

    /// The members, in group order.
    pub fn hits(&self) -> (r: &Vec<HashablePoint>)
        ensures
            r@ == self@.hits,
    {
        &self.hits
    }

    /// The score of the first member.
    pub fn top_score(&self) -> (r: i64)
        requires
            self@.hits.len() > 0,
        ensures
            r == self@.hits[0].score,
    {
        self.hits[0].score
    }

    pub fn len(&self) -> (r: usize)
        ensures
            r == self@.hits.len(),
    {
        self.hits.len()
    }
}

} // verus!
