use vstd::prelude::*;

use crate::dedup::SeenIdentities;
use crate::group::{
    group_insert, group_wf, holds_identity, insert_sorted, lemma_insert_sorted,
    Group, GroupModel,
};
use crate::types::{
    candidate_key, extract_key, AggregatorError, HashablePoint, KeyModel, PointIdentity,
    ScoredPoint,
};

verus! {

/// How the batch size of successive rounds is chosen and when rounds stop.
#[derive(PartialEq, Eq, Structural, Debug, Clone, Copy)]
pub struct RoundPolicy {
    /// The first round asks for `limit * group_size * initial_factor` candidates.
    pub initial_factor: usize,
    /// Each further round asks for `growth_factor` times the previous size.
    pub growth_factor: usize,
    /// No round starts once this many rounds have run.
    pub max_rounds: usize,
    /// No round starts once this many candidates have been examined.
    pub max_examined: usize,
}

pub const DEFAULT_INITIAL_FACTOR: usize = 2;

pub const DEFAULT_GROWTH_FACTOR: usize = 2;

pub const DEFAULT_MAX_ROUNDS: usize = 8;

pub const DEFAULT_MAX_EXAMINED: usize = 1000000;

impl RoundPolicy {
    pub fn default_policy() -> (r: RoundPolicy)
        ensures
            r == (RoundPolicy {
                initial_factor: DEFAULT_INITIAL_FACTOR,
                growth_factor: DEFAULT_GROWTH_FACTOR,
                max_rounds: DEFAULT_MAX_ROUNDS,
                max_examined: DEFAULT_MAX_EXAMINED,
            }),
    {
        RoundPolicy {
            initial_factor: DEFAULT_INITIAL_FACTOR,
            growth_factor: DEFAULT_GROWTH_FACTOR,
            max_rounds: DEFAULT_MAX_ROUNDS,
            max_examined: DEFAULT_MAX_EXAMINED,
        }
    }
}

/// Where an aggregation stands.
#[derive(PartialEq, Eq, Structural, Debug, Clone, Copy)]
pub enum Phase {
    /// No round has been asked for yet.
    Pending,
    /// A round of the size `requested` has been asked for and not yet handed in.
    Running,
    /// The aggregation has stopped; its groups are final.
    Done,
    /// A round failed; the aggregation has no result.
    Failed,
}

/// Why an aggregation stopped.
#[derive(PartialEq, Eq, Structural, Debug, Clone, Copy)]
pub enum StopReason {
    /// At least `limit` groups are full.
    EnoughGroups,
    /// The source returned fewer candidates than were asked for.
    Exhausted,
    /// The policy's round or candidate budget is spent.
    BudgetSpent,
    /// The caller's deadline has passed.
    Deadline,
}

/// What the driver of an aggregation does next.
#[derive(PartialEq, Eq, Structural, Debug, Clone, Copy)]
pub enum RoundAction {
    /// Ask the search source for this many candidates, most relevant first.
    Search(usize),
    /// Stop and take the groups.
    Finish(StopReason),
}

/// The mathematical state of an aggregation.
pub struct AggregatorModel {
    pub groups: Seq<GroupModel>,
    pub seen: Seq<PointIdentity>,
    pub limit: nat,
    pub group_size: nat,
    pub field: Seq<char>,
    pub policy: RoundPolicy,
    pub phase: Phase,
    pub requested: nat,
    pub rounds: nat,
    pub examined: nat,
}

/// The index of the group with `key`, or the number of groups if there is none.
pub open spec fn group_index(gs: Seq<GroupModel>, key: KeyModel) -> nat
    decreases gs.len(),
{
    if gs.len() == 0 {
        0
    } else if gs[0].key == key {
        0
    } else {
        1 + group_index(gs.drop_first(), key)
    }
}

pub open spec fn keys_distinct(gs: Seq<GroupModel>) -> bool {
    forall|a: int, b: int|
        0 <= a < gs.len() && 0 <= b < gs.len() && a != b ==> #[trigger] gs[a].key
            != #[trigger] gs[b].key
}

/// No identity is a member of two different groups.
pub open spec fn groups_disjoint(gs: Seq<GroupModel>) -> bool {
    forall|a: int, b: int, i: int, j: int|
        0 <= a < gs.len() && 0 <= b < gs.len() && a != b && 0 <= i < gs[a].hits.len() && 0 <= j
            < gs[b].hits.len() ==> #[trigger] gs[a].hits[i].identity_spec()
            != #[trigger] gs[b].hits[j].identity_spec()
}

/// Each group is well formed, non-empty and holds at most `group_size` members.
pub open spec fn groups_bounded(gs: Seq<GroupModel>, group_size: nat) -> bool {
    forall|a: int|
        0 <= a < gs.len() ==> {
            &&& group_wf(#[trigger] gs[a])
            &&& gs[a].capacity == group_size
            &&& gs[a].hits.len() > 0
        }
}

/// Every member's identity has been recorded as seen.
pub open spec fn members_seen(gs: Seq<GroupModel>, seen: Seq<PointIdentity>) -> bool {
    forall|a: int, i: int|
        0 <= a < gs.len() && 0 <= i < gs[a].hits.len() ==> seen.contains(
            #[trigger] gs[a].hits[i].identity_spec(),
        )
}

pub open spec fn agg_wf(s: AggregatorModel) -> bool {
    &&& s.limit > 0
    &&& s.group_size > 0
    &&& s.groups.len() <= s.limit
    &&& keys_distinct(s.groups)
    &&& groups_disjoint(s.groups)
    &&& groups_bounded(s.groups, s.group_size)
    &&& members_seen(s.groups, s.seen)
}

/// What happens to the state when one candidate `p` with key `k` is considered:
/// a candidate without a key is dropped; a new key is dropped once `limit` groups
/// exist; an identity already seen is dropped; otherwise the identity is recorded
/// as seen and the point goes to its key's group (created if new), which keeps it
/// unless it is full.
pub open spec fn accept(s: AggregatorModel, p: HashablePoint, k: Result<KeyModel, AggregatorError>) -> AggregatorModel {
    match k {
        Err(_) => s,
        Ok(key) => {
            let i = group_index(s.groups, key);
            if i == s.groups.len() && s.groups.len() >= s.limit {
                s
            } else if s.seen.contains(p.identity_spec()) {
                s
            } else if i == s.groups.len() {
                AggregatorModel {
                    groups: s.groups.push(
                        GroupModel { key, hits: seq![p], capacity: s.group_size },
                    ),
                    seen: s.seen.push(p.identity_spec()),
                    ..s
                }
            } else {
                AggregatorModel {
                    groups: s.groups.update(i as int, group_insert(s.groups[i as int], p)),
                    seen: s.seen.push(p.identity_spec()),
                    ..s
                }
            }
        },
    }
}

/// The outcome reported for one candidate.
pub open spec fn accept_outcome(s: AggregatorModel, p: HashablePoint, k: Result<KeyModel, AggregatorError>) -> Result<(), AggregatorError> {
    match k {
        Err(e) => Err(e),
        Ok(key) => {
            let i = group_index(s.groups, key);
            if i == s.groups.len() && s.groups.len() >= s.limit {
                Err(AggregatorError::AllGroupsFull)
            } else if s.seen.contains(p.identity_spec()) {
                Ok(())
            } else if i < s.groups.len() && s.groups[i as int].hits.len() >= s.group_size {
                Err(AggregatorError::GroupFull)
            } else {
                Ok(())
            }
        },
    }
}

pub open spec fn accept_candidate(s: AggregatorModel, c: ScoredPoint) -> AggregatorModel {
    accept(s, HashablePoint::of_spec(c), candidate_key(c, s.field))
}

/// The state after considering the candidates of `batch` in order.
pub open spec fn accept_batch(s: AggregatorModel, batch: Seq<ScoredPoint>) -> AggregatorModel
    decreases batch.len(),
{
    if batch.len() == 0 {
        s
    } else {
        accept_candidate(accept_batch(s, batch.drop_last()), batch.last())
    }
}

pub proof fn lemma_group_index(gs: Seq<GroupModel>, key: KeyModel)
    ensures
        group_index(gs, key) <= gs.len(),
        forall|j: int| 0 <= j < group_index(gs, key) ==> #[trigger] gs[j].key != key,
        group_index(gs, key) < gs.len() ==> gs[group_index(gs, key) as int].key == key,
    decreases gs.len(),
{
    if gs.len() > 0 && gs[0].key != key {
        lemma_group_index(gs.drop_first(), key);
        assert forall|j: int| 0 <= j < group_index(gs, key) implies #[trigger] gs[j].key != key by {
            if j > 0 {
                assert(gs[j] == gs.drop_first()[j - 1]);
            }
        }
    }
}

proof fn lemma_group_index_at(gs: Seq<GroupModel>, key: KeyModel, i: int)
    requires
        0 <= i <= gs.len(),
        forall|j: int| 0 <= j < i ==> #[trigger] gs[j].key != key,
        i < gs.len() ==> gs[i].key == key,
    ensures
        group_index(gs, key) == i,
    decreases i,
{
    if i > 0 {
        assert forall|j: int| 0 <= j < i - 1 implies #[trigger] gs.drop_first()[j].key != key by {
            assert(gs.drop_first()[j] == gs[j + 1]);
        }
        lemma_group_index_at(gs.drop_first(), key, i - 1);
    }
}

/// Considering one candidate keeps the state well formed and leaves the request
/// parameters and the round state alone.
pub proof fn lemma_accept_wf(s: AggregatorModel, p: HashablePoint, k: Result<KeyModel, AggregatorError>)
    requires
        agg_wf(s),
    ensures
        agg_wf(accept(s, p, k)),
        accept(s, p, k).limit == s.limit,
        accept(s, p, k).group_size == s.group_size,
        accept(s, p, k).field == s.field,
        accept(s, p, k).policy == s.policy,
        accept(s, p, k).phase == s.phase,
        accept(s, p, k).requested == s.requested,
        accept(s, p, k).rounds == s.rounds,
        accept(s, p, k).examined == s.examined,
{
    if let Ok(key) = k {
        let i = group_index(s.groups, key);
        lemma_group_index(s.groups, key);
        let id = p.identity_spec();
        if !(i == s.groups.len() && s.groups.len() >= s.limit) && !s.seen.contains(id) {
            let t = accept(s, p, k);
            let seen2 = s.seen.push(id);
            assert forall|a: int, x: int|
                0 <= a < s.groups.len() && 0 <= x < s.groups[a].hits.len() implies #[trigger] s.groups[a].hits[x].identity_spec()
                != id by {
                assert(s.seen.contains(s.groups[a].hits[x].identity_spec()));
            }
            if i == s.groups.len() {
                let g = GroupModel { key, hits: seq![p], capacity: s.group_size };
                assert(t.groups == s.groups.push(g));
                assert forall|a: int| 0 <= a < t.groups.len() implies {
                    &&& group_wf(#[trigger] t.groups[a])
                    &&& t.groups[a].capacity == s.group_size
                    &&& t.groups[a].hits.len() > 0
                } by {
                    if a < s.groups.len() {
                        assert(t.groups[a] == s.groups[a]);
                    }
                }
                assert forall|a: int, b: int|
                    0 <= a < t.groups.len() && 0 <= b < t.groups.len() && a != b implies #[trigger] t.groups[a].key
                    != #[trigger] t.groups[b].key by {
                    if a == s.groups.len() {
                        assert(s.groups[b].key != key);
                    } else if b == s.groups.len() {
                        assert(s.groups[a].key != key);
                    }
                }
                assert forall|a: int, b: int, x: int, y: int|
                    0 <= a < t.groups.len() && 0 <= b < t.groups.len() && a != b && 0 <= x
                        < t.groups[a].hits.len() && 0 <= y
                        < t.groups[b].hits.len() implies #[trigger] t.groups[a].hits[x].identity_spec()
                    != #[trigger] t.groups[b].hits[y].identity_spec() by {
                    if a == s.groups.len() {
                        assert(t.groups[b].hits[y] == s.groups[b].hits[y]);
                    } else if b == s.groups.len() {
                        assert(t.groups[a].hits[x] == s.groups[a].hits[x]);
                    }
                }
                assert forall|a: int, x: int|
                    0 <= a < t.groups.len() && 0 <= x < t.groups[a].hits.len() implies seen2.contains(
                    #[trigger] t.groups[a].hits[x].identity_spec(),
                ) by {
                    if a == s.groups.len() {
                        assert(seen2[s.seen.len() as int] == id);
                    } else {
                        assert(s.seen.contains(s.groups[a].hits[x].identity_spec()));
                        let w = choose|w: int|
                            0 <= w < s.seen.len() && s.seen[w] == s.groups[a].hits[x].identity_spec();
                        assert(seen2[w] == s.seen[w]);
                    }
                }
            } else {
                let old_g = s.groups[i as int];
                let new_g = group_insert(old_g, p);
                assert(!holds_identity(old_g.hits, p));
                lemma_insert_sorted(old_g.hits, p);
                assert(t.groups == s.groups.update(i as int, new_g));
                // every member of the updated group is an old member or `p`
                assert forall|x: int| 0 <= x < new_g.hits.len() implies (#[trigger] new_g.hits[x]
                    == p || old_g.hits.contains(new_g.hits[x])) by {
                    if new_g.hits.len() != old_g.hits.len() {
                        assert(insert_sorted(old_g.hits, p).contains(new_g.hits[x]));
                    } else {
                        assert(old_g.hits[x] == new_g.hits[x]);
                    }
                }
                assert forall|a: int| 0 <= a < t.groups.len() implies {
                    &&& group_wf(#[trigger] t.groups[a])
                    &&& t.groups[a].capacity == s.group_size
                    &&& t.groups[a].hits.len() > 0
                } by {
                    if a == i {
                    }
                }
                assert forall|a: int, b: int|
                    0 <= a < t.groups.len() && 0 <= b < t.groups.len() && a != b implies #[trigger] t.groups[a].key
                    != #[trigger] t.groups[b].key by {
                    assert(s.groups[a].key != s.groups[b].key);
                }
                assert forall|a: int, b: int, x: int, y: int|
                    0 <= a < t.groups.len() && 0 <= b < t.groups.len() && a != b && 0 <= x
                        < t.groups[a].hits.len() && 0 <= y
                        < t.groups[b].hits.len() implies #[trigger] t.groups[a].hits[x].identity_spec()
                    != #[trigger] t.groups[b].hits[y].identity_spec() by {
                    if a == i {
                        if t.groups[a].hits[x] != p {
                            let w = choose|w: int|
                                0 <= w < old_g.hits.len() && old_g.hits[w] == t.groups[a].hits[x];
                            assert(s.groups[a].hits[w].identity_spec()
                                != s.groups[b].hits[y].identity_spec());
                        }
                    } else if b == i {
                        if t.groups[b].hits[y] != p {
                            let w = choose|w: int|
                                0 <= w < old_g.hits.len() && old_g.hits[w] == t.groups[b].hits[y];
                            assert(s.groups[a].hits[x].identity_spec()
                                != s.groups[b].hits[w].identity_spec());
                        }
                    } else {
                        assert(s.groups[a].hits[x].identity_spec()
                            != s.groups[b].hits[y].identity_spec());
                    }
                }
                assert forall|a: int, x: int|
                    0 <= a < t.groups.len() && 0 <= x < t.groups[a].hits.len() implies seen2.contains(
                    #[trigger] t.groups[a].hits[x].identity_spec(),
                ) by {
                    let m = t.groups[a].hits[x];
                    if m == p {
                        assert(seen2[s.seen.len() as int] == id);
                    } else {
                        let om = if a == i {
                            let w = choose|w: int| 0 <= w < old_g.hits.len() && old_g.hits[w] == m;
                            s.groups[a].hits[w]
                        } else {
                            s.groups[a].hits[x]
                        };
                        assert(om == m);
                        assert(s.seen.contains(om.identity_spec()));
                        let w = choose|w: int|
                            0 <= w < s.seen.len() && s.seen[w] == om.identity_spec();
                        assert(seen2[w] == s.seen[w]);
                    }
                }
            }
        }
    }
}


/// `a * b`, or the largest `usize` where the product does not fit.
pub open spec fn sat_mul(a: nat, b: nat) -> nat {
    if a * b > usize::MAX {
        usize::MAX as nat
    } else {
        a * b
    }
}

/// `a + b`, or the largest `usize` where the sum does not fit.
pub open spec fn sat_add(a: nat, b: nat) -> nat {
    if a + b > usize::MAX {
        usize::MAX as nat
    } else {
        a + b
    }
}

/// The number of groups that hold as many members as they may.
pub open spec fn count_full(gs: Seq<GroupModel>) -> nat
    decreases gs.len(),
{
    if gs.len() == 0 {
        0
    } else {
        count_full(gs.drop_last()) + if gs.last().hits.len() >= gs.last().capacity {
            1nat
        } else {
            0nat
        }
    }
}

/// The size of the first round: `limit * group_size * initial_factor`.
pub open spec fn initial_batch(s: AggregatorModel) -> nat {
    sat_mul(sat_mul(s.limit, s.group_size), s.policy.initial_factor as nat)
}

/// The stop condition after a round, in the order in which they are checked;
/// `s` holds the round's candidates and counts.
pub open spec fn stop_reason(s: AggregatorModel, returned: nat, deadline_elapsed: bool) -> Option<StopReason> {
    if count_full(s.groups) >= s.limit {
        Some(StopReason::EnoughGroups)
    } else if returned < s.requested {
        Some(StopReason::Exhausted)
    } else if s.rounds >= s.policy.max_rounds || s.examined >= s.policy.max_examined {
        Some(StopReason::BudgetSpent)
    } else if deadline_elapsed {
        Some(StopReason::Deadline)
    } else {
        None
    }
}

/// The state after a round has returned `batch`, before the stop decision.
pub open spec fn after_round(s: AggregatorModel, batch: Seq<ScoredPoint>) -> AggregatorModel {
    AggregatorModel {
        rounds: sat_add(s.rounds, 1),
        examined: sat_add(s.examined, batch.len()),
        ..accept_batch(s, batch)
    }
}

/// One round: consider the batch, then stop or ask for a batch `growth_factor`
/// times larger.
pub open spec fn round_step(s: AggregatorModel, batch: Seq<ScoredPoint>, deadline_elapsed: bool) -> (AggregatorModel, RoundAction) {
    let t = after_round(s, batch);
    match stop_reason(t, batch.len(), deadline_elapsed) {
        Some(reason) => (AggregatorModel { phase: Phase::Done, ..t }, RoundAction::Finish(reason)),
        None => {
            let n = sat_mul(s.requested, s.policy.growth_factor as nat);
            (AggregatorModel { requested: n, ..t }, RoundAction::Search(n as usize))
        },
    }
}

pub proof fn lemma_accept_batch_wf(s: AggregatorModel, batch: Seq<ScoredPoint>)
    requires
        agg_wf(s),
    ensures
        agg_wf(accept_batch(s, batch)),
        accept_batch(s, batch) == (AggregatorModel {
            groups: accept_batch(s, batch).groups,
            seen: accept_batch(s, batch).seen,
            ..s
        }),
    decreases batch.len(),
{
    if batch.len() > 0 {
        lemma_accept_batch_wf(s, batch.drop_last());
        let t = accept_batch(s, batch.drop_last());
        lemma_accept_wf(t, HashablePoint::of_spec(batch.last()), candidate_key(batch.last(), t.field));
    }
}

/// The score of a group's best member.
pub open spec fn top_score(g: GroupModel) -> int {
    if g.hits.len() > 0 {
        g.hits[0].score as int
    } else {
        i64::MIN as int
    }
}

/// Groups are in descending order of their best member's score.
pub open spec fn groups_ordered(gs: Seq<GroupModel>) -> bool {
    forall|a: int, b: int| 0 <= a < b < gs.len() ==> top_score(#[trigger] gs[a]) >= top_score(#[trigger] gs[b])
}

/// Where `g` goes among the ordered groups `acc`: after every group whose best
/// score is at least its own, so that ties keep their order of creation.
pub open spec fn group_slot(acc: Seq<GroupModel>, g: GroupModel) -> nat
    decreases acc.len(),
{
    if acc.len() == 0 {
        0
    } else if top_score(acc[0]) >= top_score(g) {
        1 + group_slot(acc.drop_first(), g)
    } else {
        0
    }
}

/// The groups in output order: a stable sort by descending best score.
pub open spec fn sort_groups(gs: Seq<GroupModel>) -> Seq<GroupModel>
    decreases gs.len(),
{
    if gs.len() == 0 {
        Seq::empty()
    } else {
        let acc = sort_groups(gs.drop_last());
        acc.insert(group_slot(acc, gs.last()) as int, gs.last())
    }
}

proof fn lemma_group_slot(acc: Seq<GroupModel>, g: GroupModel)
    ensures
        group_slot(acc, g) <= acc.len(),
        forall|j: int| 0 <= j < group_slot(acc, g) ==> top_score(#[trigger] acc[j]) >= top_score(g),
        group_slot(acc, g) < acc.len() ==> top_score(acc[group_slot(acc, g) as int]) < top_score(g),
    decreases acc.len(),
{
    if acc.len() > 0 && top_score(acc[0]) >= top_score(g) {
        lemma_group_slot(acc.drop_first(), g);
        assert forall|j: int| 0 <= j < group_slot(acc, g) implies top_score(#[trigger] acc[j]) >= top_score(g) by {
            if j > 0 {
                assert(acc[j] == acc.drop_first()[j - 1]);
            }
        }
    }
}

proof fn lemma_group_slot_at(acc: Seq<GroupModel>, g: GroupModel, i: int)
    requires
        0 <= i <= acc.len(),
        forall|j: int| 0 <= j < i ==> top_score(#[trigger] acc[j]) >= top_score(g),
        i < acc.len() ==> top_score(acc[i]) < top_score(g),
    ensures
        group_slot(acc, g) == i,
    decreases i,
{
    if i > 0 {
        assert forall|j: int| 0 <= j < i - 1 implies top_score(#[trigger] acc.drop_first()[j]) >= top_score(g) by {
            assert(acc.drop_first()[j] == acc[j + 1]);
        }
        lemma_group_slot_at(acc.drop_first(), g, i - 1);
    }
}

/// The groups of a prefix keep the properties of the whole.
proof fn lemma_prefix_props(gs: Seq<GroupModel>, n: int, group_size: nat)
    requires
        0 <= n <= gs.len(),
        keys_distinct(gs),
        groups_disjoint(gs),
        groups_bounded(gs, group_size),
    ensures
        keys_distinct(gs.subrange(0, n)),
        groups_disjoint(gs.subrange(0, n)),
        groups_bounded(gs.subrange(0, n), group_size),
{
    let pre = gs.subrange(0, n);
    assert forall|a: int, b: int|
        0 <= a < pre.len() && 0 <= b < pre.len() && a != b implies #[trigger] pre[a].key
        != #[trigger] pre[b].key by {
        assert(pre[a] == gs[a] && pre[b] == gs[b]);
    }
    assert forall|a: int, b: int, i: int, j: int|
        0 <= a < pre.len() && 0 <= b < pre.len() && a != b && 0 <= i < pre[a].hits.len() && 0
            <= j < pre[b].hits.len() implies #[trigger] pre[a].hits[i].identity_spec()
        != #[trigger] pre[b].hits[j].identity_spec() by {
        assert(pre[a] == gs[a] && pre[b] == gs[b]);
    }
    assert forall|a: int| 0 <= a < pre.len() implies {
        &&& group_wf(#[trigger] pre[a])
        &&& pre[a].capacity == group_size
        &&& pre[a].hits.len() > 0
    } by {
        assert(pre[a] == gs[a]);
    }
}

/// Putting a group into its slot keeps the order and the other properties,
/// when its key and members are new.
proof fn lemma_insert_group(acc: Seq<GroupModel>, g: GroupModel, group_size: nat)
    requires
        groups_ordered(acc),
        keys_distinct(acc),
        groups_disjoint(acc),
        groups_bounded(acc, group_size),
        group_wf(g),
        g.capacity == group_size,
        g.hits.len() > 0,
        forall|x: int| 0 <= x < acc.len() ==> (#[trigger] acc[x]).key != g.key,
        forall|x: int, i: int, j: int|
            0 <= x < acc.len() && 0 <= i < acc[x].hits.len() && 0 <= j < g.hits.len()
                ==> (#[trigger] acc[x].hits[i]).identity_spec()
                != (#[trigger] g.hits[j]).identity_spec(),
    ensures
        groups_ordered(acc.insert(group_slot(acc, g) as int, g)),
        keys_distinct(acc.insert(group_slot(acc, g) as int, g)),
        groups_disjoint(acc.insert(group_slot(acc, g) as int, g)),
        groups_bounded(acc.insert(group_slot(acc, g) as int, g), group_size),
{
    lemma_group_slot(acc, g);
    let k = group_slot(acc, g) as int;
    let t = acc.insert(k, g);
    assert forall|a: int, b: int| 0 <= a < b < t.len() implies top_score(#[trigger] t[a]) >= top_score(#[trigger] t[b]) by {
        if a < k && b == k {
        } else if a < k && b > k {
            assert(top_score(acc[a]) >= top_score(acc[b - 1]));
        } else if a == k && b > k {
            assert(top_score(acc[k]) >= top_score(acc[b - 1]));
        } else if a > k {
            assert(top_score(acc[a - 1]) >= top_score(acc[b - 1]));
        } else {
            assert(top_score(acc[a]) >= top_score(acc[b]));
        }
    }
    assert forall|a: int, b: int|
        0 <= a < t.len() && 0 <= b < t.len() && a != b implies #[trigger] t[a].key
        != #[trigger] t[b].key by {
        let sa = if a < k { a } else { a - 1 };
        let sb = if b < k { b } else { b - 1 };
        if a == k {
            assert(acc[sb].key != g.key);
        } else if b == k {
            assert(acc[sa].key != g.key);
        } else {
            assert(t[a] == acc[sa] && t[b] == acc[sb]);
        }
    }
    assert forall|a: int, b: int, i: int, j: int|
        0 <= a < t.len() && 0 <= b < t.len() && a != b && 0 <= i < t[a].hits.len() && 0 <= j
            < t[b].hits.len() implies #[trigger] t[a].hits[i].identity_spec()
        != #[trigger] t[b].hits[j].identity_spec() by {
        let sa = if a < k { a } else { a - 1 };
        let sb = if b < k { b } else { b - 1 };
        if a == k {
            assert(acc[sb].hits[j].identity_spec() != g.hits[i].identity_spec());
        } else if b == k {
            assert(acc[sa].hits[i].identity_spec() != g.hits[j].identity_spec());
        } else {
            assert(t[a] == acc[sa] && t[b] == acc[sb]);
        }
    }
    assert forall|a: int| 0 <= a < t.len() implies {
        &&& group_wf(#[trigger] t[a])
        &&& t[a].capacity == group_size
        &&& t[a].hits.len() > 0
    } by {
        if a < k {
            assert(t[a] == acc[a]);
        } else if a > k {
            assert(t[a] == acc[a - 1]);
        }
    }
}

/// Putting a group into a sequence adds exactly that group.
proof fn lemma_insert_contains(acc: Seq<GroupModel>, k: int, g: GroupModel)
    requires
        0 <= k <= acc.len(),
    ensures
        forall|x: GroupModel| #[trigger] acc.insert(k, g).contains(x) <==> (x == g || acc.contains(x)),
{
    let t = acc.insert(k, g);
    assert forall|x: GroupModel| #[trigger] t.contains(x) <==> (x == g || acc.contains(x)) by {
        if t.contains(x) {
            let i = choose|i: int| 0 <= i < t.len() && t[i] == x;
            if i < k {
                assert(acc[i] == x);
            } else if i > k {
                assert(acc[i - 1] == x);
            }
        }
        if acc.contains(x) {
            let w = choose|w: int| 0 <= w < acc.len() && acc[w] == x;
            if w < k {
                assert(t[w] == x);
            } else {
                assert(t[w + 1] == x);
            }
        }
        if x == g {
            assert(t[k] == x);
        }
    }
}

/// Sorting keeps the groups, one for one, and puts them in output order.
pub proof fn lemma_sort_groups(gs: Seq<GroupModel>, group_size: nat)
    requires
        keys_distinct(gs),
        groups_disjoint(gs),
        groups_bounded(gs, group_size),
    ensures
        sort_groups(gs).len() == gs.len(),
        forall|g: GroupModel| #[trigger] sort_groups(gs).contains(g) <==> gs.contains(g),
        groups_ordered(sort_groups(gs)),
        keys_distinct(sort_groups(gs)),
        groups_disjoint(sort_groups(gs)),
        groups_bounded(sort_groups(gs), group_size),
    decreases gs.len(),
{
    if gs.len() > 0 {
        let prev = gs.drop_last();
        let g = gs.last();
        assert(prev =~= gs.subrange(0, gs.len() - 1));
        lemma_prefix_props(gs, gs.len() - 1, group_size);
        lemma_sort_groups(prev, group_size);
        let acc = sort_groups(prev);
        lemma_group_slot(acc, g);
        let k = group_slot(acc, g) as int;
        assert forall|x: int| 0 <= x < acc.len() implies exists|w: int|
            0 <= w < prev.len() && #[trigger] acc[x] == prev[w] by {
            assert(acc.contains(acc[x]));
        }
        assert forall|x: int| 0 <= x < acc.len() implies (#[trigger] acc[x]).key != g.key by {
            let w = choose|w: int| 0 <= w < prev.len() && acc[x] == prev[w];
            assert(gs[w] == prev[w]);
            assert(gs[w].key != gs[gs.len() - 1].key);
        }
        assert forall|x: int, i: int, j: int|
            0 <= x < acc.len() && 0 <= i < acc[x].hits.len() && 0 <= j < g.hits.len() implies (#[trigger] acc[x].hits[i]).identity_spec()
            != (#[trigger] g.hits[j]).identity_spec() by {
            let w = choose|w: int| 0 <= w < prev.len() && acc[x] == prev[w];
            assert(gs[w] == prev[w]);
            assert(gs[w].hits[i].identity_spec() != gs[gs.len() - 1].hits[j].identity_spec());
        }
        assert(groups_bounded(gs, group_size) ==> group_wf(gs[gs.len() - 1]));
        lemma_insert_group(acc, g, group_size);
        lemma_insert_contains(acc, k, g);
        assert forall|x: GroupModel| prev.contains(x) || x == g <==> gs.contains(x) by {
            if gs.contains(x) {
                let i = choose|i: int| 0 <= i < gs.len() && gs[i] == x;
                if i < gs.len() - 1 {
                    assert(prev[i] == x);
                }
            }
            if prev.contains(x) {
                let i = choose|i: int| 0 <= i < prev.len() && prev[i] == x;
                assert(gs[i] == x);
            }
        }
    }
}

/// Considering candidates changes only the groups and the seen identities.
pub proof fn lemma_accept_batch_frame(s: AggregatorModel, batch: Seq<ScoredPoint>)
    ensures
        accept_batch(s, batch) == (AggregatorModel {
            groups: accept_batch(s, batch).groups,
            seen: accept_batch(s, batch).seen,
            ..s
        }),
    decreases batch.len(),
{
    if batch.len() > 0 {
        lemma_accept_batch_frame(s, batch.drop_last());
    }
}

/// A candidate has a key under the field `field`.
pub open spec fn has_key(field: Seq<char>) -> spec_fn(ScoredPoint) -> bool {
    |c: ScoredPoint| candidate_key(c, field) is Ok
}

/// Candidates whose grouping field is missing or holds neither a string nor a
/// number are as good as absent, whatever else the batch holds: considering a
/// batch gives the same groups and the same seen identities as considering only
/// its candidates that have a key.
pub proof fn lemma_unkeyed_candidates_ignored(s: AggregatorModel, batch: Seq<ScoredPoint>)
    ensures
        accept_batch(s, batch) == accept_batch(s, batch.filter(has_key(s.field))),
    decreases batch.len(),
{
    reveal(Seq::filter);
    if batch.len() > 0 {
        let prev = batch.drop_last();
        let c = batch.last();
        let kept = prev.filter(has_key(s.field));
        lemma_unkeyed_candidates_ignored(s, prev);
        lemma_accept_batch_frame(s, prev);
        if has_key(s.field)(c) {
            assert(batch.filter(has_key(s.field)) == kept.push(c));
            assert(kept.push(c).drop_last() =~= kept);
        } else {
            assert(batch.filter(has_key(s.field)) == kept);
        }
    }
}

/// Considering `c` again in state `s` would change nothing.
pub open spec fn absorbed(s: AggregatorModel, c: ScoredPoint) -> bool {
    accept_candidate(s, c) == s
}

/// Once considered, a candidate is absorbed by the state.
proof fn lemma_absorbed_after(s: AggregatorModel, c: ScoredPoint)
    requires
        agg_wf(s),
    ensures
        absorbed(accept_candidate(s, c), c),
{
    let p = HashablePoint::of_spec(c);
    let k = candidate_key(c, s.field);
    lemma_accept_wf(s, p, k);
    let t = accept_candidate(s, c);
    if let Ok(key) = k {
        if t != s {
            assert(t.seen == s.seen.push(p.identity_spec()));
            assert(t.seen[s.seen.len() as int] == p.identity_spec());
            assert(t.seen.contains(p.identity_spec()));
            lemma_group_index(t.groups, key);
        }
    }
}

/// A candidate stays absorbed while other candidates are considered.
proof fn lemma_absorbed_stays(s: AggregatorModel, c: ScoredPoint, d: ScoredPoint)
    requires
        agg_wf(s),
        absorbed(s, c),
    ensures
        absorbed(accept_candidate(s, d), c),
{
    let pc = HashablePoint::of_spec(c);
    let pd = HashablePoint::of_spec(d);
    let kd = candidate_key(d, s.field);
    lemma_accept_wf(s, pd, kd);
    let t = accept_candidate(s, d);
    if let Ok(key) = candidate_key(c, s.field) {
        lemma_group_index(s.groups, key);
        lemma_group_index(t.groups, key);
        if s.seen.contains(pc.identity_spec()) {
            if t != s {
                let w = choose|w: int| 0 <= w < s.seen.len() && s.seen[w] == pc.identity_spec();
                assert(t.seen[w] == s.seen[w]);
            }
        } else {
            // the key of `c` has no group and no group can be added any more
            if !(group_index(s.groups, key) == s.groups.len() && s.groups.len() >= s.limit) {
                assert(accept_candidate(s, c).seen.len() == s.seen.len() + 1);
            }
            if t != s {
                if let Ok(dk) = kd {
                    lemma_group_index(s.groups, dk);
                    assert(group_index(s.groups, dk) < s.groups.len());
                    assert(t.groups.len() == s.groups.len());
                    assert forall|j: int| 0 <= j < t.groups.len() implies #[trigger] t.groups[j].key
                        != key by {
                        assert(t.groups[j].key == s.groups[j].key);
                        assert(s.groups[j].key != key);
                    }
                    lemma_group_index_at(t.groups, key, t.groups.len() as int);
                }
            }
        }
    }
}

/// Every candidate of `batch` is absorbed once the batch has been considered.
proof fn lemma_batch_absorbed(s: AggregatorModel, batch: Seq<ScoredPoint>)
    requires
        agg_wf(s),
    ensures
        forall|i: int| 0 <= i < batch.len() ==> absorbed(accept_batch(s, batch), #[trigger] batch[i]),
    decreases batch.len(),
{
    if batch.len() > 0 {
        let prev = batch.drop_last();
        lemma_batch_absorbed(s, prev);
        lemma_accept_batch_wf(s, prev);
        let t = accept_batch(s, prev);
        assert forall|i: int| 0 <= i < batch.len() implies absorbed(accept_batch(s, batch), #[trigger] batch[i]) by {
            if i < batch.len() - 1 {
                assert(batch[i] == prev[i]);
                lemma_absorbed_stays(t, batch[i], batch.last());
            } else {
                lemma_absorbed_after(t, batch.last());
            }
        }
    }
}

/// Considering absorbed candidates changes nothing.
proof fn lemma_absorbed_batch_no_change(s: AggregatorModel, batch: Seq<ScoredPoint>)
    requires
        agg_wf(s),
        forall|i: int| 0 <= i < batch.len() ==> absorbed(s, #[trigger] batch[i]),
    ensures
        accept_batch(s, batch) == s,
    decreases batch.len(),
{
    if batch.len() > 0 {
        let prev = batch.drop_last();
        assert forall|i: int| 0 <= i < prev.len() implies absorbed(s, #[trigger] prev[i]) by {
            assert(prev[i] == batch[i]);
        }
        lemma_absorbed_batch_no_change(s, prev);
        assert(absorbed(s, batch[batch.len() - 1]));
    }
}

/// Handing in the candidates of a round a second time changes nothing: every
/// candidate is dropped, already seen, or refused as before. Rounds that repeat
/// earlier candidates therefore count each of them once.
pub proof fn lemma_repeated_batch_changes_nothing(s: AggregatorModel, batch: Seq<ScoredPoint>)
    requires
        agg_wf(s),
    ensures
        accept_batch(accept_batch(s, batch), batch) == accept_batch(s, batch),
{
    lemma_batch_absorbed(s, batch);
    lemma_accept_batch_wf(s, batch);
    lemma_absorbed_batch_no_change(accept_batch(s, batch), batch);
}

/// The state of a fresh aggregation.
pub open spec fn initial_model(limit: nat, group_size: nat, field: Seq<char>, policy: RoundPolicy) -> AggregatorModel {
    AggregatorModel {
        groups: Seq::empty(),
        seen: Seq::empty(),
        limit,
        group_size,
        field,
        policy,
        phase: Phase::Pending,
        requested: 0,
        rounds: 0,
        examined: 0,
    }
}

pub open spec fn group_views(gs: Seq<Group>) -> Seq<GroupModel> {
    gs.map_values(|g: Group| g@)
}

/// The aggregation of one grouping request: the groups found so far, the
/// identities already seen, the request's parameters and the round state.
pub struct GroupsAggregator {
    groups: Vec<Group>,
    seen: SeenIdentities,
    limit: usize,
    group_size: usize,
    field: String,
    policy: RoundPolicy,
    phase: Phase,
    requested: usize,
    rounds: usize,
    examined: usize,
}

impl View for GroupsAggregator {
    type V = AggregatorModel;

    closed spec fn view(&self) -> AggregatorModel {
        AggregatorModel {
            groups: group_views(self.groups@),
            seen: self.seen@,
            limit: self.limit as nat,
            group_size: self.group_size as nat,
            field: self.field@,
            policy: self.policy,
            phase: self.phase,
            requested: self.requested as nat,
            rounds: self.rounds as nat,
            examined: self.examined as nat,
        }
    }
}

impl GroupsAggregator {
    pub open spec fn wf(&self) -> bool {
        agg_wf(self@)
    }

    closed spec fn groups_wf(&self) -> bool {
        forall|a: int| 0 <= a < self.groups@.len() ==> (#[trigger] self.groups@[a]).wf()
    }

    /// A new aggregation for `limit` groups of at most `group_size` points each,
    /// keyed by the payload field `field`, with the default round policy.
    /// A zero `limit` or `group_size` is an `InvalidRequest`.
    pub fn new(limit: usize, group_size: usize, field: String) -> (r: Result<
        GroupsAggregator,
        AggregatorError,
    >)
        ensures
            match r {
                Ok(a) => {
                    &&& limit > 0 && group_size > 0
                    &&& a.wf()
                    &&& a@ == initial_model(
                        limit as nat,
                        group_size as nat,
                        field@,
                        RoundPolicy {
                            initial_factor: DEFAULT_INITIAL_FACTOR,
                            growth_factor: DEFAULT_GROWTH_FACTOR,
                            max_rounds: DEFAULT_MAX_ROUNDS,
                            max_examined: DEFAULT_MAX_EXAMINED,
                        },
                    )
                },
                Err(e) => (limit == 0 || group_size == 0) && e == AggregatorError::InvalidRequest,
            },
    {
        GroupsAggregator::with_policy(limit, group_size, field, RoundPolicy::default_policy())
    }

    /// As `new`, with the given round policy.
    pub fn with_policy(limit: usize, group_size: usize, field: String, policy: RoundPolicy) -> (r:
        Result<GroupsAggregator, AggregatorError>)
        ensures
            match r {
                Ok(a) => {
                    &&& limit > 0 && group_size > 0
                    &&& a.wf()
                    &&& a@ == initial_model(limit as nat, group_size as nat, field@, policy)
                },
                Err(e) => (limit == 0 || group_size == 0) && e == AggregatorError::InvalidRequest,
            },
    {
        if limit == 0 || group_size == 0 {
            return Err(AggregatorError::InvalidRequest);
        }
        let a = GroupsAggregator {
            groups: Vec::new(),
            seen: SeenIdentities::new(),
            limit,
            group_size,
            field,
            policy,
            phase: Phase::Pending,
            requested: 0,
            rounds: 0,
            examined: 0,
        };
        proof {
            assert(group_views(a.groups@) =~= Seq::<GroupModel>::empty());
        }
        Ok(a)
    }

    fn find_group(&self, key: &crate::types::GroupKey) -> (r: usize)
        ensures
            r == group_index(self@.groups, key@),
    {
        let mut i: usize = 0;
        while i < self.groups.len()
            invariant
                0 <= i <= self.groups.len(),
                forall|j: int| 0 <= j < i ==> #[trigger] self@.groups[j].key != key@,
            decreases self.groups.len() - i,
        {
            if self.groups[i].key().eq(key) {
                proof {
                    lemma_group_index_at(self@.groups, key@, i as int);
                }
                return i;
            }
            i = i + 1;
        }
        proof {
            lemma_group_index_at(self@.groups, key@, i as int);
        }
        i
    }

    /// Considers one candidate: derives its key, checks that its key has or may
    /// get a group, records its identity, and offers it to its group.
    pub fn add_point(&mut self, point: &ScoredPoint) -> (r: Result<(), AggregatorError>)
        requires
            old(self).wf(),
        ensures
            final(self).wf(),
            final(self)@ == accept_candidate(old(self)@, *point),
            r == accept_outcome(
                old(self)@,
                HashablePoint::of_spec(*point),
                candidate_key(*point, old(self)@.field),
            ),
    {
        proof {
            lemma_accept_wf(
                self@,
                HashablePoint::of_spec(*point),
                candidate_key(*point, self@.field),
            );
        }
        let key = match extract_key(&point.payload, &self.field) {
            Ok(k) => k,
            Err(e) => {
                return Err(e);
            },
        };
        let idx = self.find_group(&key);
        proof {
            lemma_group_index(self@.groups, key@);
        }
        if idx == self.groups.len() && self.groups.len() >= self.limit {
            return Err(AggregatorError::AllGroupsFull);
        }
        let hp = HashablePoint::minimal_from(point);
        let id = hp.identity();
        if !self.seen.observe(id) {
            return Ok(());
        }
        if idx == self.groups.len() {
            let mut g = Group::new(key, self.group_size);
            let _ = g.try_insert(hp);
            proof {
                assert(g@.hits =~= seq![hp]);
            }
            self.groups.push(g);
            proof {
                assert(group_views(self.groups@) =~= group_views(old(self).groups@).push(g@));
                assert(self@.seen == old(self)@.seen.push(id));
                assert(self@ == accept_candidate(old(self)@, *point));
            }
            Ok(())
        } else {
            proof {
                assert(group_views(self.groups@)[idx as int] == self.groups@[idx as int]@);
            }
            let res = self.groups[idx].try_insert(hp);
            proof {
                assert(group_views(self.groups@) =~= group_views(old(self).groups@).update(
                    idx as int,
                    self.groups@[idx as int]@,
                ));
                assert(self@.seen == old(self)@.seen.push(id));
                assert(self@ == accept_candidate(old(self)@, *point));
            }
            res
        }
    }
    fn sat_mul_exec(a: usize, b: usize) -> (r: usize)
        ensures
            r == sat_mul(a as nat, b as nat),
    {
        match a.checked_mul(b) {
            Some(v) => v,
            None => usize::MAX,
        }
    }

    fn sat_add_exec(a: usize, b: usize) -> (r: usize)
        ensures
            r == sat_add(a as nat, b as nat),
    {
        match a.checked_add(b) {
            Some(v) => v,
            None => usize::MAX,
        }
    }

    /// Considers the candidates of `batch` in order.
    pub fn add_points(&mut self, batch: &Vec<ScoredPoint>)
        requires
            old(self).wf(),
        ensures
            final(self).wf(),
            final(self)@ == accept_batch(old(self)@, batch@),
    {
        self.add_first_points(batch, batch.len());
        proof {
            assert(batch@.subrange(0, batch@.len() as int) =~= batch@);
        }
    }

    /// Considers the first `n` candidates of `batch` in order.
    fn add_first_points(&mut self, batch: &Vec<ScoredPoint>, n: usize)
        requires
            old(self).wf(),
            n <= batch.len(),
        ensures
            final(self).wf(),
            final(self)@ == accept_batch(old(self)@, batch@.subrange(0, n as int)),
    {
        let mut i: usize = 0;
        while i < n
            invariant
                0 <= i <= n <= batch.len(),
                self.wf(),
                self@ == accept_batch(old(self)@, batch@.subrange(0, i as int)),
            decreases batch.len() - i,
        {
            proof {
                assert(batch@.subrange(0, i + 1).drop_last() =~= batch@.subrange(0, i as int));
            }
            let _ = self.add_point(&batch[i]);
            i = i + 1;
        }
    }

    /// The number of full groups.
    pub fn full_groups(&self) -> (r: usize)
        requires
            self.wf(),
        ensures
            r == count_full(self@.groups),
    {
        let mut n: usize = 0;
        let mut i: usize = 0;
        while i < self.groups.len()
            invariant
                0 <= i <= self.groups.len(),
                self.wf(),
                n == count_full(self@.groups.subrange(0, i as int)),
                n <= i,
            decreases self.groups.len() - i,
        {
            proof {
                assert(self@.groups.subrange(0, i + 1).drop_last() =~= self@.groups.subrange(
                    0,
                    i as int,
                ));
                assert(group_views(self.groups@)[i as int] == self.groups@[i as int]@);
            }
            if self.groups[i].is_full() {
                n = n + 1;
            }
            i = i + 1;
        }
        proof {
            assert(self@.groups.subrange(0, i as int) =~= self@.groups);
        }
        n
    }

    /// Starts the aggregation: the first round asks for
    /// `limit * group_size * initial_factor` candidates.
    pub fn start(&mut self) -> (r: usize)
        requires
            old(self).wf(),
            old(self)@.phase == Phase::Pending,
        ensures
            final(self).wf(),
            r == initial_batch(old(self)@),
            final(self)@ == (AggregatorModel {
                phase: Phase::Running,
                requested: r as nat,
                ..old(self)@
            }),
    {
        let n = GroupsAggregator::sat_mul_exec(
            GroupsAggregator::sat_mul_exec(self.limit, self.group_size),
            self.policy.initial_factor,
        );
        self.phase = Phase::Running;
        self.requested = n;
        n
    }

    /// Hands in the candidates that the source returned for the round asked for,
    /// and decides what comes next. `deadline_elapsed` tells whether the caller's
    /// deadline has passed.
    pub fn on_batch(&mut self, batch: &Vec<ScoredPoint>, deadline_elapsed: bool) -> (r: RoundAction)
        requires
            old(self).wf(),
            old(self)@.phase == Phase::Running,
        ensures
            final(self).wf(),
            (final(self)@, r) == round_step(old(self)@, batch@, deadline_elapsed),
            batch@.len() < old(self)@.requested ==> r is Finish,
            r is Finish <==> final(self)@.phase == Phase::Done,
    {
        proof {
            lemma_accept_batch_wf(self@, batch@);
        }
        let r = self.on_first_points(batch, batch.len(), deadline_elapsed);
        proof {
            assert(batch@.subrange(0, batch@.len() as int) =~= batch@);
        }
        r
    }

    /// As `on_batch`, for a round that returned the first `n` candidates of `batch`.
    pub fn on_first_points(&mut self, batch: &Vec<ScoredPoint>, n: usize, deadline_elapsed: bool) -> (r: RoundAction)
        requires
            old(self).wf(),
            old(self)@.phase == Phase::Running,
            n <= batch.len(),
        ensures
            final(self).wf(),
            (final(self)@, r) == round_step(
                old(self)@,
                batch@.subrange(0, n as int),
                deadline_elapsed,
            ),
            r is Finish <==> final(self)@.phase == Phase::Done,
    {
        proof {
            lemma_accept_batch_wf(self@, batch@.subrange(0, n as int));
        }
        self.add_first_points(batch, n);
        self.rounds = GroupsAggregator::sat_add_exec(self.rounds, 1);
        self.examined = GroupsAggregator::sat_add_exec(self.examined, n);
        let full = self.full_groups();
        let reason = if full >= self.limit {
            Some(StopReason::EnoughGroups)
        } else if n < self.requested {
            Some(StopReason::Exhausted)
        } else if self.rounds >= self.policy.max_rounds || self.examined
            >= self.policy.max_examined {
            Some(StopReason::BudgetSpent)
        } else if deadline_elapsed {
            Some(StopReason::Deadline)
        } else {
            None
        };
        match reason {
            Some(reason) => {
                self.phase = Phase::Done;
                RoundAction::Finish(reason)
            },
            None => {
                let n = GroupsAggregator::sat_mul_exec(self.requested, self.policy.growth_factor);
                self.requested = n;
                RoundAction::Search(n)
            },
        }
    }

    /// Records that the search source failed the round asked for: the whole
    /// aggregation fails with `SourceFailure`, and its groups can no longer be
    /// taken.
    pub fn on_source_failure(&mut self) -> (r: AggregatorError)
        requires
            old(self).wf(),
            old(self)@.phase == Phase::Running,
        ensures
            final(self).wf(),
            final(self)@ == (AggregatorModel { phase: Phase::Failed, ..old(self)@ }),
            r == AggregatorError::SourceFailure,
    {
        self.phase = Phase::Failed;
        AggregatorError::SourceFailure
    }

    pub fn phase(&self) -> (r: Phase)
        ensures
            r == self@.phase,
    {
        self.phase
    }

    /// The batch size of the round asked for last.
    pub fn requested(&self) -> (r: usize)
        ensures
            r == self@.requested,
    {
        self.requested
    }

    /// The groups found, in output order: by descending score of their best
    /// member, groups with equal best scores in the order they were created.
    /// At most `limit` groups, each with between one and `group_size` members in
    /// group order, no two with the same key, no identity in two of them.
    /// A failed aggregation has no groups to give.
    pub fn into_groups(self) -> (r: Vec<Group>)
        requires
            self.wf(),
            self@.phase != Phase::Failed,
        ensures
            group_views(r@) == sort_groups(self@.groups),
            r@.len() <= self@.limit,
            groups_ordered(group_views(r@)),
            keys_distinct(group_views(r@)),
            groups_disjoint(group_views(r@)),
            groups_bounded(group_views(r@), self@.group_size),
    {
        let ghost all = self@.groups;
        let ghost group_size = self@.group_size;
        proof {
            lemma_sort_groups(all, group_size);
        }
        let mut rest = self.groups;
        let mut out: Vec<Group> = Vec::new();
        let ghost mut done: int = 0;
        proof {
            assert(group_views(rest@) =~= all.subrange(0, all.len() as int));
            assert(group_views(out@) =~= sort_groups(all.subrange(0, 0)));
        }
        while rest.len() > 0
            invariant
                0 <= done <= all.len(),
                group_views(rest@) == all.subrange(done, all.len() as int),
                group_views(out@) == sort_groups(all.subrange(0, done)),
                groups_bounded(all, group_size),
                keys_distinct(all),
                groups_disjoint(all),
            decreases rest.len(),
        {
            proof {
                assert(group_views(rest@).len() == rest@.len());
                assert(done < all.len());
                assert(group_views(rest@)[0] == rest@[0]@);
                assert(all.subrange(done, all.len() as int)[0] == all[done]);
                assert(all[done] == rest@[0]@);
                lemma_prefix_props(all, done, group_size);
                lemma_sort_groups(all.subrange(0, done), group_size);
                assert forall|j: int| 0 <= j < out@.len() implies (#[trigger] out@[j])@.hits.len() > 0 by {
                    assert(group_views(out@)[j] == out@[j]@);
                }
            }
            let ghost rest_before = rest@;
            let g = rest.remove(0);
            proof {
                assert forall|j: int| 0 <= j < rest@.len() implies #[trigger] group_views(rest@)[j]
                    == all[done + 1 + j] by {
                    assert(rest@[j] == rest_before[j + 1]);
                    assert(group_views(rest_before)[j + 1] == rest_before[j + 1]@);
                    assert(group_views(rest_before)[j + 1] == all.subrange(done, all.len() as int)[j + 1]);
                }
            }
            let score = g.top_score();
            let mut k: usize = 0;
            while k < out.len() && out[k].top_score() >= score
                invariant
                    0 <= k <= out.len(),
                    group_views(out@) == sort_groups(all.subrange(0, done)),
                    forall|j: int| 0 <= j < out@.len() ==> (#[trigger] out@[j])@.hits.len() > 0,
                    score == top_score(g@),
                    forall|j: int| 0 <= j < k ==> top_score(#[trigger] group_views(out@)[j]) >= top_score(g@),
                decreases out.len() - k,
            {
                proof {
                    assert(group_views(out@)[k as int] == out@[k as int]@);
                }
                k = k + 1;
            }
            proof {
                if k < out.len() {
                    assert(group_views(out@)[k as int] == out@[k as int]@);
                }
                lemma_group_slot_at(group_views(out@), g@, k as int);
                assert(all.subrange(0, done + 1).drop_last() =~= all.subrange(0, done));
                assert(all.subrange(0, done + 1).last() == g@);
            }
            let ghost before = out@;
            out.insert(k, g);
            proof {
                assert(group_views(out@) =~= group_views(before).insert(k as int, g@));
                assert(group_views(rest@) =~= all.subrange(done + 1, all.len() as int));
                done = done + 1;
            }
        }
        proof {
            assert(all.subrange(0, done) =~= all);
        }
        out
    }
}

} // verus!
