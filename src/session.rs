use vstd::prelude::*;

use crate::aggregator::{
    group_views, groups_bounded, groups_disjoint, groups_ordered, initial_batch, initial_model,
    keys_distinct, lemma_accept_batch_frame, round_step, sort_groups, AggregatorModel,
    GroupsAggregator, Phase, RoundAction, RoundPolicy,
};
use crate::group::Group;
use crate::types::{AggregatorError, ScoredPoint};

verus! {

/// What a search source over the ranked candidates `ranked` returns for a
/// round of size `n`: the `n` most relevant, or all of them if there are fewer.
pub open spec fn ranked_round(ranked: Seq<ScoredPoint>, n: nat) -> Seq<ScoredPoint> {
    if n < ranked.len() {
        ranked.subrange(0, n as int)
    } else {
        ranked
    }
}

/// The state in which the rounds against `ranked` end, from the running state `s`.
pub open spec fn run_ranked(s: AggregatorModel, ranked: Seq<ScoredPoint>) -> AggregatorModel
    decreases s.policy.max_rounds - s.rounds,
{
    let (t, action) = round_step(s, ranked_round(ranked, s.requested), false);
    if action is Search && t.policy == s.policy && t.rounds == s.rounds + 1 && t.rounds
        <= s.policy.max_rounds {
        run_ranked(t, ranked)
    } else {
        t
    }
}

/// The state of a fresh aggregation once its first round has been asked for.
pub open spec fn started(s: AggregatorModel) -> AggregatorModel {
    AggregatorModel { phase: Phase::Running, requested: initial_batch(s), ..s }
}

/// The groups that a whole aggregation against `ranked` returns.
pub open spec fn ranked_groups(
    limit: nat,
    group_size: nat,
    field: Seq<char>,
    policy: RoundPolicy,
    ranked: Seq<ScoredPoint>,
) -> Seq<crate::group::GroupModel> {
    sort_groups(run_ranked(started(initial_model(limit, group_size, field, policy)), ranked).groups)
}

/// An aggregation's groups are a function of its inputs alone: two runs on the
/// same ranked candidates, with the same request and policy, give the same groups
/// in the same order, each with the same members in the same order.
pub proof fn lemma_same_inputs_same_groups(
    limit: nat,
    group_size: nat,
    field: Seq<char>,
    policy: RoundPolicy,
    first: Seq<ScoredPoint>,
    second: Seq<ScoredPoint>,
)
    requires
        first == second,
    ensures
        ranked_groups(limit, group_size, field, policy, first) == ranked_groups(
            limit,
            group_size,
            field,
            policy,
            second,
        ),
{
}

/// Runs a whole aggregation against a search source that ranks the candidates
/// `ranked`, most relevant first: each round takes the requested number of
/// leading candidates, until a stop condition holds. The result depends on the
/// arguments alone. A zero `limit` or `group_size` is an `InvalidRequest`, and
/// then no round is run.
pub fn aggregate_ranked(
    limit: usize,
    group_size: usize,
    field: String,
    policy: RoundPolicy,
    ranked: &Vec<ScoredPoint>,
) -> (r: Result<Vec<Group>, AggregatorError>)
    ensures
        match r {
            Ok(gs) => {
                &&& limit > 0 && group_size > 0
                &&& group_views(gs@) == ranked_groups(
                    limit as nat,
                    group_size as nat,
                    field@,
                    policy,
                    ranked@,
                )
                &&& gs@.len() <= limit
                &&& groups_ordered(group_views(gs@))
                &&& keys_distinct(group_views(gs@))
                &&& groups_disjoint(group_views(gs@))
                &&& groups_bounded(group_views(gs@), group_size as nat)
            },
            Err(e) => (limit == 0 || group_size == 0) && e == AggregatorError::InvalidRequest,
        },
{
    let ghost field_view = field@;
    let mut agg = match GroupsAggregator::with_policy(limit, group_size, field, policy) {
        Ok(a) => a,
        Err(e) => {
            return Err(e);
        },
    };
    let mut n = agg.start();
    let ghost fin = run_ranked(agg@, ranked@);
    let mut finished = false;
    while !finished
        invariant
            agg.wf(),
            agg@.limit == limit,
            agg@.group_size == group_size,
            agg@.policy == policy,
            fin == run_ranked(
                started(initial_model(limit as nat, group_size as nat, field_view, policy)),
                ranked@,
            ),
            finished ==> agg@ == fin && agg@.phase == Phase::Done,
            !finished ==> {
                &&& agg@.phase == Phase::Running
                &&& n == agg@.requested
                &&& run_ranked(agg@, ranked@) == fin
                &&& agg@.rounds <= policy.max_rounds
            },
        decreases (if finished {
            0
        } else {
            policy.max_rounds - agg@.rounds + 1
        }),
    {
        let take = if n < ranked.len() {
            n
        } else {
            ranked.len()
        };
        proof {
            if n < ranked.len() {
            } else {
                assert(ranked@.subrange(0, take as int) =~= ranked@);
            }
        }
        let ghost before = agg@;
        match agg.on_first_points(ranked, take, false) {
            RoundAction::Finish(_) => {
                finished = true;
            },
            RoundAction::Search(m) => {
                n = m;
            },
        }
        proof {
            assert(ranked_round(ranked@, before.requested) == ranked@.subrange(0, take as int));
            lemma_accept_batch_frame(before, ranked@.subrange(0, take as int));
        }
    }
    let groups = agg.into_groups();
    Ok(groups)
}

} // verus!
