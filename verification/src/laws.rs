//! The laws of the planner: where each planned operation comes from, that no
//! name is planned twice, that the scaled-down and orphan populations never
//! meet, and that a drift-free project plans no work.

use vstd::prelude::*;
use crate::controller::{
    classify, orphaned, orphans_spec, plan_a, plan_b, plan_up_spec, scaled_down,
    ContainerOperation,
};
use crate::models::{Composition, Container, ContainerSpec, ContainerStatus};
use crate::observation::{names_distinct, ContainerMap};

verus! {

/// Every Stream-A entry is the classification of some declared replica.
pub proof fn lemma_plan_a_entry(specs: Seq<ContainerSpec>, obs: Map<Seq<char>, Container>, k: int)
    requires
        0 <= k < plan_a(specs, obs).len(),
    ensures
        exists|i: int|
            0 <= i < specs.len() && (#[trigger] specs[i]).name == plan_a(specs, obs)[k].0
                && classify(specs[i], obs) == Some(plan_a(specs, obs)[k].1),
    decreases specs.len(),
{
    let plan = plan_a(specs, obs);
    let prefix = plan_a(specs.drop_last(), obs);
    if k < prefix.len() {
        lemma_plan_a_entry(specs.drop_last(), obs, k);
        let i = choose|i: int|
            0 <= i < specs.drop_last().len() && (#[trigger] specs.drop_last()[i]).name
                == prefix[k].0 && classify(specs.drop_last()[i], obs) == Some(prefix[k].1);
        assert(specs[i] == specs.drop_last()[i]);
        assert(plan[k] == prefix[k]);
    } else {
        let i = specs.len() - 1;
        assert(specs[i] == specs.last());
        assert(plan[k].0 == specs.last().name && Some(plan[k].1) == classify(specs.last(), obs));
    }
}

/// Every declared replica that the table classifies is planned.
pub proof fn lemma_plan_a_contains(
    specs: Seq<ContainerSpec>,
    obs: Map<Seq<char>, Container>,
    i: int,
)
    requires
        0 <= i < specs.len(),
        classify(specs[i], obs) is Some,
    ensures
        plan_a(specs, obs).contains((specs[i].name, classify(specs[i], obs)->Some_0)),
    decreases specs.len(),
{
    let plan = plan_a(specs, obs);
    let prefix = plan_a(specs.drop_last(), obs);
    let pair = (specs[i].name, classify(specs[i], obs)->Some_0);
    if i < specs.len() - 1 {
        assert(specs.drop_last()[i] == specs[i]);
        lemma_plan_a_contains(specs.drop_last(), obs, i);
        let k = choose|k: int| 0 <= k < prefix.len() && prefix[k] == pair;
        assert(plan[k] == pair);
    } else {
        assert(specs[i] == specs.last());
        assert(plan[plan.len() - 1] == pair);
    }
}

/// Stream-A entries carry declared names.
pub proof fn lemma_plan_a_names_declared(
    specs: Seq<ContainerSpec>,
    obs: Map<Seq<char>, Container>,
    k: int,
)
    requires
        0 <= k < plan_a(specs, obs).len(),
    ensures
        exists|i: int| 0 <= i < specs.len() && (#[trigger] specs[i]).name@ == plan_a(specs, obs)[k].0@,
{
    lemma_plan_a_entry(specs, obs, k);
    let i = choose|i: int|
        0 <= i < specs.len() && (#[trigger] specs[i]).name == plan_a(specs, obs)[k].0
            && classify(specs[i], obs) == Some(plan_a(specs, obs)[k].1);
    assert(specs[i].name@ == plan_a(specs, obs)[k].0@);
}

/// Every Stream-B entry removes some scaled-down observed container.
pub proof fn lemma_plan_b_entry(obs_seq: Seq<Container>, comp: Composition, k: int)
    requires
        0 <= k < plan_b(obs_seq, comp).len(),
    ensures
        exists|i: int|
            0 <= i < obs_seq.len() && (#[trigger] obs_seq[i]).name == plan_b(obs_seq, comp)[k].0
                && scaled_down(obs_seq[i], comp),
        plan_b(obs_seq, comp)[k].1 == ContainerOperation::Remove,
    decreases obs_seq.len(),
{
    let plan = plan_b(obs_seq, comp);
    let prefix = plan_b(obs_seq.drop_last(), comp);
    if k < prefix.len() {
        lemma_plan_b_entry(obs_seq.drop_last(), comp, k);
        let i = choose|i: int|
            0 <= i < obs_seq.drop_last().len() && (#[trigger] obs_seq.drop_last()[i]).name
                == prefix[k].0 && scaled_down(obs_seq.drop_last()[i], comp);
        assert(obs_seq[i] == obs_seq.drop_last()[i]);
        assert(plan[k] == prefix[k]);
    } else {
        let i = obs_seq.len() - 1;
        assert(obs_seq[i] == obs_seq.last());
    }
}

/// Every scaled-down observed container is planned for removal.
pub proof fn lemma_plan_b_contains(obs_seq: Seq<Container>, comp: Composition, i: int)
    requires
        0 <= i < obs_seq.len(),
        scaled_down(obs_seq[i], comp),
    ensures
        plan_b(obs_seq, comp).contains((obs_seq[i].name, ContainerOperation::Remove)),
    decreases obs_seq.len(),
{
    let plan = plan_b(obs_seq, comp);
    let prefix = plan_b(obs_seq.drop_last(), comp);
    let pair = (obs_seq[i].name, ContainerOperation::Remove);
    if i < obs_seq.len() - 1 {
        assert(obs_seq.drop_last()[i] == obs_seq[i]);
        lemma_plan_b_contains(obs_seq.drop_last(), comp, i);
        let k = choose|k: int| 0 <= k < prefix.len() && prefix[k] == pair;
        assert(plan[k] == pair);
    } else {
        assert(obs_seq[i] == obs_seq.last());
        assert(plan[plan.len() - 1] == pair);
    }
}

/// Every orphan report names some orphaned observed container.
pub proof fn lemma_orphans_entry(obs_seq: Seq<Container>, comp: Composition, k: int)
    requires
        0 <= k < orphans_spec(obs_seq, comp).len(),
    ensures
        exists|i: int|
            0 <= i < obs_seq.len() && (#[trigger] obs_seq[i]).name == orphans_spec(obs_seq, comp)[k]
                && orphaned(obs_seq[i], comp),
    decreases obs_seq.len(),
{
    let plan = orphans_spec(obs_seq, comp);
    let prefix = orphans_spec(obs_seq.drop_last(), comp);
    if k < prefix.len() {
        lemma_orphans_entry(obs_seq.drop_last(), comp, k);
        let i = choose|i: int|
            0 <= i < obs_seq.drop_last().len() && (#[trigger] obs_seq.drop_last()[i]).name
                == prefix[k] && orphaned(obs_seq.drop_last()[i], comp);
        assert(obs_seq[i] == obs_seq.drop_last()[i]);
        assert(plan[k] == prefix[k]);
    } else {
        let i = obs_seq.len() - 1;
        assert(obs_seq[i] == obs_seq.last());
    }
}

/// The orphans and the scaled-down containers never meet: no name reported
/// by orphan detection is ever planned for removal by Stream B. The one is
/// scoped to undeclared services, the other to declared ones.
pub proof fn lemma_orphans_disjoint_from_scaled_down(obs_seq: Seq<Container>, comp: Composition)
    requires
        names_distinct(obs_seq),
    ensures
        forall|k1: int, k2: int|
            0 <= k1 < orphans_spec(obs_seq, comp).len() && 0 <= k2 < plan_b(obs_seq, comp).len()
                ==> #[trigger] orphans_spec(obs_seq, comp)[k1]@ != #[trigger] plan_b(
                obs_seq,
                comp,
            )[k2].0@,
{
    assert forall|k1: int, k2: int|
        0 <= k1 < orphans_spec(obs_seq, comp).len() && 0 <= k2 < plan_b(obs_seq, comp).len()
            implies #[trigger] orphans_spec(obs_seq, comp)[k1]@ != #[trigger] plan_b(
        obs_seq,
        comp,
    )[k2].0@ by {
        lemma_orphans_entry(obs_seq, comp, k1);
        lemma_plan_b_entry(obs_seq, comp, k2);
        let i1 = choose|i: int|
            0 <= i < obs_seq.len() && (#[trigger] obs_seq[i]).name == orphans_spec(
                obs_seq,
                comp,
            )[k1] && orphaned(obs_seq[i], comp);
        let i2 = choose|i: int|
            0 <= i < obs_seq.len() && (#[trigger] obs_seq[i]).name == plan_b(obs_seq, comp)[k2].0
                && scaled_down(obs_seq[i], comp);
        if orphans_spec(obs_seq, comp)[k1]@ == plan_b(obs_seq, comp)[k2].0@ {
            assert(obs_seq[i1].name@ == obs_seq[i2].name@);
            assert(i1 == i2);
        }
    }
}

/// Distinct Stream-A positions classify distinct replicas, in order.
proof fn lemma_plan_a_sources_ordered(
    specs: Seq<ContainerSpec>,
    obs: Map<Seq<char>, Container>,
    k1: int,
    k2: int,
)
    requires
        forall|i: int, j: int| 0 <= i < j < specs.len() ==> specs[i].name@ != specs[j].name@,
        0 <= k1 < k2 < plan_a(specs, obs).len(),
    ensures
        plan_a(specs, obs)[k1].0@ != plan_a(specs, obs)[k2].0@,
    decreases specs.len(),
{
    let plan = plan_a(specs, obs);
    let prefix = plan_a(specs.drop_last(), obs);
    assert(forall|i: int, j: int|
        0 <= i < j < specs.drop_last().len() ==> (#[trigger] specs.drop_last()[i]).name@
            != (#[trigger] specs.drop_last()[j]).name@) by {
        assert(forall|i: int|
            0 <= i < specs.drop_last().len() ==> #[trigger] specs.drop_last()[i] == specs[i]);
    }
    if k2 < prefix.len() {
        lemma_plan_a_sources_ordered(specs.drop_last(), obs, k1, k2);
        assert(plan[k1] == prefix[k1]);
        assert(plan[k2] == prefix[k2]);
    } else {
        // The later entry classifies the last replica; the earlier one
        // classifies an earlier replica, whose name differs.
        assert(plan[k2].0 == specs.last().name);
        assert(plan[k1] == prefix[k1]);
        lemma_plan_a_entry(specs.drop_last(), obs, k1);
        let i = choose|i: int|
            0 <= i < specs.drop_last().len() && (#[trigger] specs.drop_last()[i]).name
                == prefix[k1].0 && classify(specs.drop_last()[i], obs) == Some(prefix[k1].1);
        assert(specs[i] == specs.drop_last()[i]);
        assert(specs[i].name@ != specs[specs.len() - 1].name@);
    }
}

/// With distinct observed names, Stream B plans each name at most once.
proof fn lemma_plan_b_sources_ordered(obs_seq: Seq<Container>, comp: Composition, k1: int, k2: int)
    requires
        names_distinct(obs_seq),
        0 <= k1 < k2 < plan_b(obs_seq, comp).len(),
    ensures
        plan_b(obs_seq, comp)[k1].0@ != plan_b(obs_seq, comp)[k2].0@,
    decreases obs_seq.len(),
{
    let plan = plan_b(obs_seq, comp);
    let prefix = plan_b(obs_seq.drop_last(), comp);
    assert(names_distinct(obs_seq.drop_last())) by {
        assert(forall|i: int|
            0 <= i < obs_seq.drop_last().len() ==> #[trigger] obs_seq.drop_last()[i] == obs_seq[i]);
    }
    if k2 < prefix.len() {
        lemma_plan_b_sources_ordered(obs_seq.drop_last(), comp, k1, k2);
        assert(plan[k1] == prefix[k1]);
        assert(plan[k2] == prefix[k2]);
    } else {
        assert(plan[k2].0 == obs_seq.last().name);
        assert(plan[k1] == prefix[k1]);
        lemma_plan_b_entry(obs_seq.drop_last(), comp, k1);
        let i = choose|i: int|
            0 <= i < obs_seq.drop_last().len() && (#[trigger] obs_seq.drop_last()[i]).name
                == prefix[k1].0 && scaled_down(obs_seq.drop_last()[i], comp);
        assert(obs_seq[i] == obs_seq.drop_last()[i]);
        assert(obs_seq[i].name@ != obs_seq[obs_seq.len() - 1].name@);
    }
}

/// Stream-B entries carry names the composition does not declare.
pub proof fn lemma_plan_b_names_undeclared(obs_seq: Seq<Container>, comp: Composition, k: int)
    requires
        0 <= k < plan_b(obs_seq, comp).len(),
    ensures
        !comp.declares_name(plan_b(obs_seq, comp)[k].0@),
{
    lemma_plan_b_entry(obs_seq, comp, k);
}

/// Stream-A exhaustiveness, and at most one operation per name: the whole up
/// plan names no container twice; a declared replica that the classification
/// table maps to an operation appears with exactly that operation, and one
/// that the table leaves alone appears nowhere.
pub proof fn lemma_stream_a_exhaustive(comp: Composition, obs: ContainerMap)
    requires
        comp.wf(),
        obs.wf(),
    ensures
        forall|k1: int, k2: int|
            0 <= k1 < k2 < plan_up_spec(comp, obs).len() ==> #[trigger] plan_up_spec(
                comp,
                obs,
            )[k1].0@ != #[trigger] plan_up_spec(comp, obs)[k2].0@,
        forall|i: int|
            0 <= i < comp.containers@.len() && classify(#[trigger] comp.containers@[i], obs@)
                is Some ==> plan_up_spec(comp, obs).contains(
                (comp.containers@[i].name, classify(comp.containers@[i], obs@)->Some_0),
            ),
        forall|i: int, k: int|
            0 <= i < comp.containers@.len() && classify(#[trigger] comp.containers@[i], obs@)
                is None && 0 <= k < plan_up_spec(comp, obs).len() ==> #[trigger] plan_up_spec(
                comp,
                obs,
            )[k].0@ != comp.containers@[i].name@,
    {
    let plan = plan_up_spec(comp, obs);
    let pa = plan_a(comp.containers@, obs@);
    let pb = plan_b(obs.entry_seq(), comp);
    crate::observation::lemma_sorted_names_distinct(obs.entry_seq());
    // No name twice: within Stream A, within Stream B, and across the seam,
    // where Stream A names are declared and Stream B names are not.
    assert forall|k1: int, k2: int|
        0 <= k1 < k2 < plan.len() implies #[trigger] plan[k1].0@ != #[trigger] plan[k2].0@ by {
        if k2 < pa.len() {
            lemma_plan_a_sources_ordered(comp.containers@, obs@, k1, k2);
        } else if k1 >= pa.len() {
            lemma_plan_b_sources_ordered(obs.entry_seq(), comp, k1 - pa.len(), k2 - pa.len());
            assert(plan[k1] == pb[k1 - pa.len()]);
            assert(plan[k2] == pb[k2 - pa.len()]);
        } else {
            lemma_plan_a_names_declared(comp.containers@, obs@, k1);
            lemma_plan_b_names_undeclared(obs.entry_seq(), comp, k2 - pa.len());
            assert(plan[k1] == pa[k1]);
            assert(plan[k2] == pb[k2 - pa.len()]);
            let i = choose|i: int|
                0 <= i < comp.containers@.len() && (#[trigger] comp.containers@[i]).name@
                    == pa[k1].0@;
            assert(comp.declares_name(pa[k1].0@));
        }
    }
    // A classified replica is planned.
    assert forall|i: int|
        0 <= i < comp.containers@.len() && classify(#[trigger] comp.containers@[i], obs@)
            is Some implies plan.contains(
        (comp.containers@[i].name, classify(comp.containers@[i], obs@)->Some_0),
    ) by {
        lemma_plan_a_contains(comp.containers@, obs@, i);
        let pair = (comp.containers@[i].name, classify(comp.containers@[i], obs@)->Some_0);
        let k = choose|k: int| 0 <= k < pa.len() && pa[k] == pair;
        assert(plan[k] == pair);
    }
    // An unclassified replica is planned nowhere.
    assert forall|i: int, k: int|
        0 <= i < comp.containers@.len() && classify(#[trigger] comp.containers@[i], obs@) is None
            && 0 <= k < plan.len() implies #[trigger] plan[k].0@ != comp.containers@[i].name@ by {
        if k < pa.len() {
            assert(plan[k] == pa[k]);
            lemma_plan_a_entry(comp.containers@, obs@, k);
            let j = choose|j: int|
                0 <= j < comp.containers@.len() && (#[trigger] comp.containers@[j]).name == pa[k].0
                    && classify(comp.containers@[j], obs@) == Some(pa[k].1);
            if plan[k].0@ == comp.containers@[i].name@ {
                assert(comp.containers@[j].name@ == comp.containers@[i].name@);
                assert(i == j);
            }
        } else {
            assert(plan[k] == pb[k - pa.len()]);
            lemma_plan_b_names_undeclared(obs.entry_seq(), comp, k - pa.len());
            assert(comp.declares_name(comp.containers@[i].name@));
        }
    }
}

/// A replica the table leaves alone: observed under its own digest and
/// Running.
pub open spec fn fresh_running(s: ContainerSpec, obs: Map<Seq<char>, Container>) -> bool {
    &&& obs.contains_key(s.name@)
    &&& crate::controller::hash_matches(s, obs[s.name@])
    &&& obs[s.name@].status == ContainerStatus::Running
}

/// Idempotence under no drift: when every declared replica stands observed
/// under its own digest and Running, and every observed container either
/// carries a declared name or does not answer to a declared service, the up
/// plan is empty.
pub proof fn lemma_plan_up_empty_no_drift(comp: Composition, obs: ContainerMap)
    requires
        comp.wf(),
        obs.wf(),
        forall|i: int|
            0 <= i < comp.containers@.len() ==> fresh_running(#[trigger] comp.containers@[i], obs@),
        forall|i: int|
            0 <= i < obs.entry_seq().len() ==> comp.declares_name(
                (#[trigger] obs.entry_seq()[i]).name@,
            ) || !scaled_down(obs.entry_seq()[i], comp),
    ensures
        plan_up_spec(comp, obs) == Seq::<(crate::models::ContainerName, ContainerOperation)>::empty(),
{
    lemma_plan_a_empty(comp.containers@, obs@);
    lemma_plan_b_empty(obs.entry_seq(), comp);
    assert(plan_up_spec(comp, obs) =~= Seq::<
        (crate::models::ContainerName, ContainerOperation),
    >::empty());
}

/// Stream A plans nothing when no replica classifies to an operation.
proof fn lemma_plan_a_empty(specs: Seq<ContainerSpec>, obs: Map<Seq<char>, Container>)
    requires
        forall|i: int| 0 <= i < specs.len() ==> fresh_running(#[trigger] specs[i], obs),
    ensures
        plan_a(specs, obs).len() == 0,
    decreases specs.len(),
{
    if specs.len() > 0 {
        assert(forall|i: int|
            0 <= i < specs.drop_last().len() ==> #[trigger] specs.drop_last()[i] == specs[i]);
        lemma_plan_a_empty(specs.drop_last(), obs);
        assert(specs[specs.len() - 1] == specs.last());
        assert(classify(specs.last(), obs) is None);
    }
}

/// A container as create, and the start that follows it, leave it: Running,
/// named for its declaration, carrying the user labels plus the three system
/// labels. Its identifier is the runtime's choice.
pub open spec fn created_from(c: Container, s: ContainerSpec, project: Seq<char>) -> bool {
    &&& c.name == s.name
    &&& c.status == ContainerStatus::Running
    &&& c.labels@ == crate::controller::with_system_labels_spec(s, project)
}

/// The container with its status set and everything else kept.
pub open spec fn with_status(c: Container, st: ContainerStatus) -> Container {
    Container { status: st, ..c }
}

/// What one faithfully applied operation leaves in the observed world:
/// create and recreate leave the named declaration's replica Running under
/// fresh system labels, start and stop leave the observed container with its
/// new status, and remove erases the name.
pub open spec fn op_effect(
    comp: Composition,
    project: Seq<char>,
    m1: Map<Seq<char>, Container>,
    name: crate::models::ContainerName,
    op: ContainerOperation,
    m2: Map<Seq<char>, Container>,
) -> bool {
    match op {
        ContainerOperation::Create | ContainerOperation::Recreate => exists|i: int|
            0 <= i < comp.containers@.len() && (#[trigger] comp.containers@[i]).name@ == name@ && (
            exists|c: Container|
                #[trigger] created_from(c, comp.containers@[i], project) && m2 == m1.insert(
                    name@,
                    c,
                )),
        ContainerOperation::Start => m1.contains_key(name@) && m2 == m1.insert(
            name@,
            with_status(m1[name@], ContainerStatus::Running),
        ),
        ContainerOperation::Stop => m1.contains_key(name@) && m2 == m1.insert(
            name@,
            with_status(m1[name@], ContainerStatus::Exited),
        ),
        ContainerOperation::Remove => m2 == m1.remove(name@),
    }
}

/// A plan faithfully applied, operation by operation: `states` is the trace
/// of observed worlds, one ahead of each operation and one after the last.
pub open spec fn plan_effect(
    comp: Composition,
    project: Seq<char>,
    states: Seq<Map<Seq<char>, Container>>,
    plan: Seq<(crate::models::ContainerName, ContainerOperation)>,
) -> bool {
    &&& states.len() == plan.len() + 1
    &&& forall|k: int|
        0 <= k < plan.len() ==> op_effect(
            comp,
            project,
            states[k],
            (#[trigger] plan[k]).0,
            plan[k].1,
            states[k + 1],
        )
}

/// A name no operation before position `n` touches keeps its observation.
proof fn lemma_plan_effect_frame(
    comp: Composition,
    project: Seq<char>,
    states: Seq<Map<Seq<char>, Container>>,
    plan: Seq<(crate::models::ContainerName, ContainerOperation)>,
    n: int,
    x: Seq<char>,
)
    requires
        plan_effect(comp, project, states, plan),
        0 <= n <= plan.len(),
        forall|k: int| 0 <= k < n ==> (#[trigger] plan[k]).0@ != x,
    ensures
        states[n].contains_key(x) == states[0].contains_key(x),
        states[0].contains_key(x) ==> states[n][x] == states[0][x],
    decreases n,
{
    if n > 0 {
        lemma_plan_effect_frame(comp, project, states, plan, n - 1, x);
        assert(op_effect(comp, project, states[n - 1], plan[n - 1].0, plan[n - 1].1, states[n]));
        assert(plan[n - 1].0@ != x);
    }
}

/// A name whose own operation is the only one naming it before position `n`
/// holds, at `n`, exactly what that operation left: a fresh Running replica
/// after create or recreate, the old container restarted or stopped after
/// start or stop, and nothing after remove.
proof fn lemma_plan_effect_last_touch(
    comp: Composition,
    project: Seq<char>,
    states: Seq<Map<Seq<char>, Container>>,
    plan: Seq<(crate::models::ContainerName, ContainerOperation)>,
    k: int,
    n: int,
)
    requires
        plan_effect(comp, project, states, plan),
        0 <= k < n <= plan.len(),
        forall|k2: int| 0 <= k2 < n && k2 != k ==> (#[trigger] plan[k2]).0@ != plan[k].0@,
    ensures
        match plan[k].1 {
            ContainerOperation::Create | ContainerOperation::Recreate => states[n].contains_key(
                plan[k].0@,
            ) && exists|i: int|
                0 <= i < comp.containers@.len() && (#[trigger] comp.containers@[i]).name@
                    == plan[k].0@ && created_from(
                    states[n][plan[k].0@],
                    comp.containers@[i],
                    project,
                ),
            ContainerOperation::Start => states[0].contains_key(plan[k].0@)
                && states[n].contains_key(plan[k].0@) && states[n][plan[k].0@] == with_status(
                states[0][plan[k].0@],
                ContainerStatus::Running,
            ),
            ContainerOperation::Stop => states[0].contains_key(plan[k].0@)
                && states[n].contains_key(plan[k].0@) && states[n][plan[k].0@] == with_status(
                states[0][plan[k].0@],
                ContainerStatus::Exited,
            ),
            ContainerOperation::Remove => !states[n].contains_key(plan[k].0@),
        },
    decreases n,
{
    let x = plan[k].0@;
    if n == k + 1 {
        lemma_plan_effect_frame(comp, project, states, plan, k, x);
        assert(op_effect(comp, project, states[k], plan[k].0, plan[k].1, states[n]));
    } else {
        lemma_plan_effect_last_touch(comp, project, states, plan, k, n - 1);
        assert(op_effect(comp, project, states[n - 1], plan[n - 1].0, plan[n - 1].1, states[n]));
        assert(plan[n - 1].0@ != x);
    }
}

/// Converge in one step: when the up plan, applied operation by operation as
/// a faithful runtime executes it, turns the observed world of `obs1` into
/// what `obs2` reports, and nothing else interferes, the next up plan is
/// empty.
pub proof fn lemma_converge_in_one_step(
    comp: Composition,
    project: Seq<char>,
    obs1: ContainerMap,
    obs2: ContainerMap,
    states: Seq<Map<Seq<char>, Container>>,
)
    requires
        comp.wf(),
        obs1.wf(),
        obs2.wf(),
        states.len() == plan_up_spec(comp, obs1).len() + 1,
        states.first() == obs1@,
        states.last() == obs2@,
        plan_effect(comp, project, states, plan_up_spec(comp, obs1)),
    ensures
        plan_up_spec(comp, obs2) == Seq::<
            (crate::models::ContainerName, ContainerOperation),
        >::empty(),
{
    let plan = plan_up_spec(comp, obs1);
    let pa = plan_a(comp.containers@, obs1@);
    let pb = plan_b(obs1.entry_seq(), comp);
    let m1 = obs1@;
    let m2 = obs2@;
    let nn = plan.len() as int;
    assert(states[0] == m1);
    assert(states[nn] == m2);
    lemma_stream_a_exhaustive(comp, obs1);
    crate::observation::lemma_sorted_names_distinct(obs1.entry_seq());
    crate::observation::lemma_sorted_names_distinct(obs2.entry_seq());
    // Every declared replica stands fresh and Running afterwards.
    assert forall|i: int|
        0 <= i < comp.containers@.len() implies fresh_running(
        #[trigger] comp.containers@[i],
        m2,
    ) by {
        let s = comp.containers@[i];
        let x = s.name@;
        match classify(s, m1) {
            Option::None => {
                assert(forall|k: int| 0 <= k < plan.len() ==> (#[trigger] plan[k]).0@ != x);
                lemma_plan_effect_frame(comp, project, states, plan, nn, x);
            },
            Option::Some(op) => {
                lemma_stream_a_exhaustive(comp, obs1);
                assert(plan.contains((s.name, op)));
                let k = choose|k: int| 0 <= k < plan.len() && plan[k] == (s.name, op);
                assert forall|k2: int|
                    0 <= k2 < plan.len() && k2 != k implies (#[trigger] plan[k2]).0@
                    != plan[k].0@ by {
                    if k2 < k {
                        assert(plan[k2].0@ != plan[k].0@);
                    } else {
                        assert(plan[k].0@ != plan[k2].0@);
                    }
                }
                lemma_plan_effect_last_touch(comp, project, states, plan, k, nn);
                match op {
                    ContainerOperation::Create | ContainerOperation::Recreate => {
                        let j = choose|j: int|
                            0 <= j < comp.containers@.len() && (#[trigger] comp.containers@[j]).name@
                                == x && created_from(m2[x], comp.containers@[j], project);
                        assert(j == i);
                        lemma_system_labels_fresh(s, project, m2[x]);
                    },
                    ContainerOperation::Start => {
                        assert(m2[x].labels == m1[x].labels);
                        assert(m2[x].status == ContainerStatus::Running);
                    },
                    _ => {
                        assert(false);
                    },
                }
            },
        }
    }
    // Every container observed afterwards is declared or no longer answers
    // to a declared service.
    assert forall|t: int|
        0 <= t < obs2.entry_seq().len() implies comp.declares_name(
        (#[trigger] obs2.entry_seq()[t]).name@,
    ) || !scaled_down(obs2.entry_seq()[t], comp) by {
        let e = obs2.entry_seq()[t];
        let x = e.name@;
        crate::observation::lemma_cmap_index(obs2.entry_seq(), t);
        assert(m2.contains_key(x) && m2[x] == e);
        if !comp.declares_name(x) {
            if exists|k: int| 0 <= k < plan.len() && (#[trigger] plan[k]).0@ == x {
                let k = choose|k: int| 0 <= k < plan.len() && (#[trigger] plan[k]).0@ == x;
                if k < pa.len() {
                    lemma_plan_a_names_declared(comp.containers@, obs1@, k);
                    assert(plan[k] == pa[k]);
                    let w = choose|w: int|
                        0 <= w < comp.containers@.len() && (#[trigger] comp.containers@[w]).name@
                            == pa[k].0@;
                    assert(false);
                } else {
                    assert(plan[k] == pb[k - pa.len()]);
                    lemma_plan_b_entry(obs1.entry_seq(), comp, k - pa.len());
                    assert(plan[k].1 == ContainerOperation::Remove);
                    assert forall|k2: int|
                        0 <= k2 < plan.len() && k2 != k implies (#[trigger] plan[k2]).0@
                        != plan[k].0@ by {
                        if k2 < k {
                            assert(plan[k2].0@ != plan[k].0@);
                        } else {
                            assert(plan[k].0@ != plan[k2].0@);
                        }
                    }
                    lemma_plan_effect_last_touch(comp, project, states, plan, k, nn);
                    assert(false);
                }
            } else {
                assert(forall|k: int| 0 <= k < plan.len() ==> (#[trigger] plan[k]).0@ != x);
                lemma_plan_effect_frame(comp, project, states, plan, nn, x);
                assert(m1.contains_key(x) && m1[x] == e);
                crate::observation::lemma_cmap_contains(obs1.entry_seq(), x);
                let w = choose|w: int|
                    0 <= w < obs1.entry_seq().len() && obs1.entry_seq()[w].name@ == x;
                crate::observation::lemma_cmap_index(obs1.entry_seq(), w);
                assert(obs1.entry_seq()[w] == e);
                if scaled_down(e, comp) {
                    lemma_plan_b_contains(obs1.entry_seq(), comp, w);
                    let kb = choose|kb: int|
                        0 <= kb < pb.len() && pb[kb] == (e.name, ContainerOperation::Remove);
                    assert(plan[pa.len() + kb] == pb[kb]);
                    assert(plan[pa.len() + kb].0@ == x);
                    assert(false);
                }
            }
        }
    }
    lemma_plan_up_empty_no_drift(comp, obs2);
}

/// The digest written at create time is the digest of the declaration.
proof fn lemma_system_labels_fresh(s: ContainerSpec, project: Seq<char>, c: Container)
    requires
        created_from(c, s, project),
    ensures
        crate::controller::hash_matches(s, c),
{
}

/// Stream B plans nothing when nothing is scaled down.
proof fn lemma_plan_b_empty(obs_seq: Seq<Container>, comp: Composition)
    requires
        forall|i: int|
            0 <= i < obs_seq.len() ==> comp.declares_name((#[trigger] obs_seq[i]).name@)
                || !scaled_down(obs_seq[i], comp),
    ensures
        plan_b(obs_seq, comp).len() == 0,
    decreases obs_seq.len(),
{
    if obs_seq.len() > 0 {
        assert(forall|i: int|
            0 <= i < obs_seq.drop_last().len() ==> #[trigger] obs_seq.drop_last()[i] == obs_seq[i]);
        lemma_plan_b_empty(obs_seq.drop_last(), comp);
        assert(obs_seq[obs_seq.len() - 1] == obs_seq.last());
        assert(!scaled_down(obs_seq.last(), comp));
    }
}

} // verus!
