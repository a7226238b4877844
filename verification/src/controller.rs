//! The reconciliation controller: classifies each declared replica against
//! the observed containers of the project and emits an ordered plan of
//! lifecycle operations; applies one operation at a time through the backend.

use vstd::prelude::*;
use crate::hasher::{container_spec_digest, spec_digest};
use crate::labels::LabelMap;
use crate::models::{
    BuildPolicy, Composition, Container, ContainerId, ContainerName, ContainerSpec,
    ContainerStatus, ImageName, PullPolicy,
};
use crate::observation::{lemma_cmap_contains, lemma_cmap_index, lemma_sorted_names_distinct,
    ContainerMap};
use crate::services::{ContainerBackend, ControllerError};
use crate::text::str_eq_chars;

verus! {

/// The label that scopes a container to its project.
pub const LABEL_PROJECT: &'static str = "io.podman.compose.project";

/// The label that ties a container to its service.
pub const LABEL_SERVICE: &'static str = "io.podman.compose.service";

/// The label that records the digest of the specification a container was
/// created from.
pub const LABEL_HASH: &'static str = "io.podman.compose.hash";

/// One lifecycle operation of the plan.
#[derive(Copy, Clone, Debug, PartialEq, Eq, Structural)]
pub enum ContainerOperation {
    Create,
    Recreate,
    Start,
    Stop,
    Remove,
}

/// Whether an observed container still carries the digest of its declaration.
pub open spec fn hash_matches(s: ContainerSpec, c: Container) -> bool {
    c.labels@.contains_key(LABEL_HASH@) && c.labels@[LABEL_HASH@] == spec_digest(s)
}

/// The classification table: what one declared replica needs, given the
/// observed containers. A digest mismatch dominates the status.
pub open spec fn classify(s: ContainerSpec, obs: Map<Seq<char>, Container>) -> Option<
    ContainerOperation,
> {
    if !obs.contains_key(s.name@) {
        Some(ContainerOperation::Create)
    } else if !hash_matches(s, obs[s.name@]) {
        Some(ContainerOperation::Recreate)
    } else {
        match obs[s.name@].status {
            ContainerStatus::Configured => Some(ContainerOperation::Start),
            ContainerStatus::Running => None,
            ContainerStatus::Exited => Some(ContainerOperation::Start),
            ContainerStatus::Unknown => Some(ContainerOperation::Recreate),
        }
    }
}

/// Stream A: each declared replica's operation, in declaration order.
pub open spec fn plan_a(specs: Seq<ContainerSpec>, obs: Map<Seq<char>, Container>) -> Seq<
    (ContainerName, ContainerOperation),
>
    decreases specs.len(),
{
    if specs.len() == 0 {
        Seq::empty()
    } else {
        plan_a(specs.drop_last(), obs) + (match classify(specs.last(), obs) {
            Some(op) => seq![(specs.last().name, op)],
            None => Seq::empty(),
        })
    }
}

/// An observed container is scaled down when its service label names a
/// declared service but its own name is no longer declared.
pub open spec fn scaled_down(c: Container, comp: Composition) -> bool {
    &&& c.labels@.contains_key(LABEL_SERVICE@)
    &&& comp.declares_service(c.labels@[LABEL_SERVICE@])
    &&& !comp.declares_name(c.name@)
}

/// Stream B: removal of scaled-down containers, in observation order.
pub open spec fn plan_b(obs_seq: Seq<Container>, comp: Composition) -> Seq<
    (ContainerName, ContainerOperation),
>
    decreases obs_seq.len(),
{
    if obs_seq.len() == 0 {
        Seq::empty()
    } else {
        plan_b(obs_seq.drop_last(), comp) + (if scaled_down(obs_seq.last(), comp) {
            seq![(obs_seq.last().name, ContainerOperation::Remove)]
        } else {
            Seq::empty()
        })
    }
}

/// The up plan: Stream A in full, then Stream B in full.
pub open spec fn plan_up_spec(comp: Composition, obs: ContainerMap) -> Seq<
    (ContainerName, ContainerOperation),
> {
    plan_a(comp.containers@, obs@) + plan_b(obs.entry_seq(), comp)
}

/// An observed container is an orphan when it carries no service label, or a
/// service label that names no declared service.
pub open spec fn orphaned(c: Container, comp: Composition) -> bool {
    !(c.labels@.contains_key(LABEL_SERVICE@) && comp.declares_service(
        c.labels@[LABEL_SERVICE@],
    ))
}

/// The orphans of the observation set, in observation order.
pub open spec fn orphans_spec(obs_seq: Seq<Container>, comp: Composition) -> Seq<ContainerName>
    decreases obs_seq.len(),
{
    if obs_seq.len() == 0 {
        Seq::empty()
    } else {
        orphans_spec(obs_seq.drop_last(), comp) + (if orphaned(obs_seq.last(), comp) {
            seq![obs_seq.last().name]
        } else {
            Seq::empty()
        })
    }
}

/// The stop plan: each declared replica observed Running, in declaration
/// order.
pub open spec fn plan_stop_spec(specs: Seq<ContainerSpec>, obs: Map<Seq<char>, Container>) -> Seq<
    (ContainerName, ContainerOperation),
>
    decreases specs.len(),
{
    if specs.len() == 0 {
        Seq::empty()
    } else {
        plan_stop_spec(specs.drop_last(), obs) + (if obs.contains_key(specs.last().name@)
            && obs[specs.last().name@].status == ContainerStatus::Running {
            seq![(specs.last().name, ContainerOperation::Stop)]
        } else {
            Seq::empty()
        })
    }
}

/// The down plan: each declared replica that exists, whatever its status, in
/// declaration order.
pub open spec fn plan_down_spec(specs: Seq<ContainerSpec>, obs: Map<Seq<char>, Container>) -> Seq<
    (ContainerName, ContainerOperation),
>
    decreases specs.len(),
{
    if specs.len() == 0 {
        Seq::empty()
    } else {
        plan_down_spec(specs.drop_last(), obs) + (if obs.contains_key(specs.last().name@) {
            seq![(specs.last().name, ContainerOperation::Remove)]
        } else {
            Seq::empty()
        })
    }
}

/// Every observed container's labels are in canonical order.
pub open spec fn obs_entries_wf(s: Seq<Container>) -> bool {
    forall|i: int| 0 <= i < s.len() ==> (#[trigger] s[i]).wf()
}

/// The reconciliation controller: the desired state, a one-shot observation
/// of the project's containers, and the backend the plan is applied through.
pub struct Controller<B: ContainerBackend> {
    pub backend: B,
    pub composition: Composition,
    pub containers: ContainerMap,
    pub project_name: String,
}

impl<B: ContainerBackend> Controller<B> {
    /// The controller's invariant: the composition is well-formed and the
    /// observation set is in canonical order throughout.
    pub open spec fn wf(&self) -> bool {
        &&& self.composition.wf()
        &&& self.containers.wf()
        &&& obs_entries_wf(self.containers.entry_seq())
    }

    /// Observes the project's containers once and captures them, with the
    /// composition, as this controller's immutable planning state.
    pub fn init(project_name: &str, backend: B, composition: Composition) -> (r: Result<
        Controller<B>,
        ControllerError,
    >)
        requires
            composition.wf(),
        ensures
            match r {
                Ok(c) => {
                    &&& c.wf()
                    &&& c.composition == composition
                    &&& c.project_name@ == project_name@
                },
                Err(e) => e is Backend,
            },
    {
        let mut backend = backend;
        let mut filters: Vec<(String, String)> = Vec::new();
        filters.push((LABEL_PROJECT.to_owned(), project_name.to_owned()));
        let listed = match backend.list_containers(&filters) {
            Ok(v) => v,
            Err(e) => {
                return Err(ControllerError::Backend(e));
            },
        };
        let mut containers = ContainerMap::new();
        let n = listed.len();
        let mut i: usize = 0;
        while i < n
            invariant
                i <= n,
                n == listed@.len(),
                containers.wf(),
                obs_entries_wf(containers.entry_seq()),
            decreases n - i,
        {
            let ghost before = containers.entry_seq();
            let c = normalize_container(&listed[i]);
            containers.insert(c);
            proof {
                assert forall|t: int|
                    0 <= t < containers.entry_seq().len() implies (
                #[trigger] containers.entry_seq()[t]).wf() by {
                    let e = containers.entry_seq()[t];
                    if e != c {
                        assert(before.contains(e));
                        let w = choose|w: int| 0 <= w < before.len() && before[w] == e;
                        assert(before[w].wf());
                    }
                }
            }
            i = i + 1;
        }
        Ok(Controller { backend, composition, containers, project_name: project_name.to_owned() })
    }

    /// The declared specification of that name, if any; the first match, which
    /// with unique names is the only one.
    fn find_spec(&self, name: &str) -> (r: Option<&ContainerSpec>)
        ensures
            match r {
                Some(s) => s.name@ == name@ && self.composition.containers@.contains(*s)
                    && self.composition.declares_name(name@),
                None => !self.composition.declares_name(name@),
            },
    {
        let n = self.composition.containers.len();
        let mut i: usize = 0;
        while i < n
            invariant
                i <= n,
                n == self.composition.containers@.len(),
                forall|j: int| 0 <= j < i ==> self.composition.containers@[j].name@ != name@,
            decreases n - i,
        {
            if str_eq_chars(self.composition.containers[i].name.0.as_str(), name) {
                proof {
                    assert(self.composition.containers@.contains(
                        self.composition.containers@[i as int],
                    )) by {
                        assert(self.composition.containers@[i as int]
                            == self.composition.containers@[i as int]);
                    }
                }
                return Some(&self.composition.containers[i]);
            }
            i = i + 1;
        }
        None
    }

    /// Whether the composition declares a replica of that name.
    fn declares_name_exec(&self, name: &str) -> (r: bool)
        ensures
            r == self.composition.declares_name(name@),
    {
        self.find_spec(name).is_some()
    }

    /// Whether the composition declares that service.
    fn declares_service_exec(&self, service: &str) -> (r: bool)
        ensures
            r == self.composition.declares_service(service@),
    {
        let n = self.composition.containers.len();
        let mut i: usize = 0;
        while i < n
            invariant
                i <= n,
                n == self.composition.containers@.len(),
                forall|j: int| 0 <= j < i ==> self.composition.containers@[j].service_name@
                    != service@,
            decreases n - i,
        {
            if str_eq_chars(self.composition.containers[i].service_name.as_str(), service) {
                return true;
            }
            i = i + 1;
        }
        false
    }

    /// Classifies one declared replica against the observation set, exactly
    /// as the classification table says.
    fn classify_replica(&self, s: &ContainerSpec) -> (r: Option<ContainerOperation>)
        requires
            self.wf(),
            s.wf(),
        ensures
            r == classify(*s, self.containers@),
    {
        let c = match self.containers.get(s.name.0.as_str()) {
            None => {
                return Some(ContainerOperation::Create);
            },
            Some(c) => c,
        };
        proof {
            lemma_sorted_names_distinct(self.containers.entry_seq());
            lemma_cmap_contains(self.containers.entry_seq(), s.name@);
            let w = choose|w: int|
                0 <= w < self.containers.entry_seq().len() && self.containers.entry_seq()[w].name@
                    == s.name@;
            lemma_cmap_index(self.containers.entry_seq(), w);
            assert(c.wf());
        }
        let digest = container_spec_digest(s);
        let matches = match c.labels.get(LABEL_HASH) {
            Some(h) => str_eq_chars(h.as_str(), digest.as_str()),
            None => false,
        };
        if !matches {
            Some(ContainerOperation::Recreate)
        } else {
            match c.status {
                ContainerStatus::Configured => Some(ContainerOperation::Start),
                ContainerStatus::Running => None,
                ContainerStatus::Exited => Some(ContainerOperation::Start),
                ContainerStatus::Unknown => Some(ContainerOperation::Recreate),
            }
        }
    }

    /// The up plan: one operation per declared replica that needs work, in
    /// declaration order, then removal of every scaled-down container.
    pub fn start_containers_diff(&mut self) -> (r: Result<
        Vec<(ContainerName, ContainerOperation)>,
        ControllerError,
    >)
        requires
            old(self).wf(),
        ensures
            *final(self) == *old(self),
            match r {
                Ok(v) => v@ == plan_up_spec(old(self).composition, old(self).containers),
                Err(_) => false,
            },
    {
        let mut out: Vec<(ContainerName, ContainerOperation)> = Vec::new();
        let n = self.composition.containers.len();
        let mut i: usize = 0;
        while i < n
            invariant
                i <= n,
                n == self.composition.containers@.len(),
                *self == *old(self),
                self.wf(),
                out@ == plan_a(self.composition.containers@.take(i as int), self.containers@),
            decreases n - i,
        {
            let s = &self.composition.containers[i];
            let ghost specs = self.composition.containers@;
            match self.classify_replica(s) {
                Some(op) => {
                    out.push((ContainerName(s.name.0.clone()), op));
                },
                None => {},
            }
            proof {
                assert(specs.take(i + 1).drop_last() =~= specs.take(i as int));
                assert(specs.take(i + 1).last() == specs[i as int]);
                assert(out@ == plan_a(specs.take(i + 1), self.containers@));
            }
            i = i + 1;
        }
        proof {
            assert(self.composition.containers@.take(n as int) =~= self.composition.containers@);
        }
        let m = self.containers.len();
        let mut k: usize = 0;
        while k < m
            invariant
                k <= m,
                m == self.containers.entry_seq().len(),
                *self == *old(self),
                self.wf(),
                out@ == plan_a(self.composition.containers@, self.containers@) + plan_b(
                    self.containers.entry_seq().take(k as int),
                    self.composition,
                ),
            decreases m - k,
        {
            let ghost obs_seq = self.containers.entry_seq();
            let c = &self.containers.entries[k];
            proof {
                assert(obs_seq[k as int].wf());
            }
            let is_declared_service = match c.labels.get(LABEL_SERVICE) {
                Some(svc) => self.declares_service_exec(svc.as_str()),
                None => false,
            };
            if is_declared_service {
                if !self.declares_name_exec(c.name.0.as_str()) {
                    out.push((ContainerName(c.name.0.clone()), ContainerOperation::Remove));
                }
            }
            proof {
                assert(obs_seq.take(k + 1).drop_last() =~= obs_seq.take(k as int));
                assert(obs_seq.take(k + 1).last() == obs_seq[k as int]);
                assert(out@ == plan_a(self.composition.containers@, self.containers@) + plan_b(
                    obs_seq.take(k + 1),
                    self.composition,
                ));
            }
            k = k + 1;
        }
        proof {
            assert(self.containers.entry_seq().take(m as int) =~= self.containers.entry_seq());
        }
        Ok(out)
    }

    /// The stop plan: one stop per declared replica observed Running, in
    /// declaration order.
    pub fn stop_containers_diff(&mut self) -> (r: Result<
        Vec<(ContainerName, ContainerOperation)>,
        ControllerError,
    >)
        requires
            old(self).wf(),
        ensures
            *final(self) == *old(self),
            match r {
                Ok(v) => v@ == plan_stop_spec(old(self).composition.containers@, old(self).containers@),
                Err(_) => false,
            },
    {
        let mut out: Vec<(ContainerName, ContainerOperation)> = Vec::new();
        let n = self.composition.containers.len();
        let mut i: usize = 0;
        while i < n
            invariant
                i <= n,
                n == self.composition.containers@.len(),
                *self == *old(self),
                self.wf(),
                out@ == plan_stop_spec(
                    self.composition.containers@.take(i as int),
                    self.containers@,
                ),
            decreases n - i,
        {
            let s = &self.composition.containers[i];
            let ghost specs = self.composition.containers@;
            match self.containers.get(s.name.0.as_str()) {
                Some(c) => {
                    if matches!(c.status, ContainerStatus::Running) {
                        out.push((ContainerName(s.name.0.clone()), ContainerOperation::Stop));
                    }
                },
                None => {},
            }
            proof {
                assert(specs.take(i + 1).drop_last() =~= specs.take(i as int));
                assert(specs.take(i + 1).last() == specs[i as int]);
                assert(out@ == plan_stop_spec(specs.take(i + 1), self.containers@));
            }
            i = i + 1;
        }
        proof {
            assert(self.composition.containers@.take(n as int) =~= self.composition.containers@);
        }
        Ok(out)
    }

    /// The down plan: one removal per declared replica that exists, in
    /// declaration order.
    pub fn remove_containers_diff(&mut self) -> (r: Result<
        Vec<(ContainerName, ContainerOperation)>,
        ControllerError,
    >)
        requires
            old(self).wf(),
        ensures
            *final(self) == *old(self),
            match r {
                Ok(v) => v@ == plan_down_spec(old(self).composition.containers@, old(self).containers@),
                Err(_) => false,
            },
    {
        let mut out: Vec<(ContainerName, ContainerOperation)> = Vec::new();
        let n = self.composition.containers.len();
        let mut i: usize = 0;
        while i < n
            invariant
                i <= n,
                n == self.composition.containers@.len(),
                *self == *old(self),
                self.wf(),
                out@ == plan_down_spec(
                    self.composition.containers@.take(i as int),
                    self.containers@,
                ),
            decreases n - i,
        {
            let s = &self.composition.containers[i];
            let ghost specs = self.composition.containers@;
            if self.containers.contains_name(s.name.0.as_str()) {
                out.push((ContainerName(s.name.0.clone()), ContainerOperation::Remove));
            }
            proof {
                assert(specs.take(i + 1).drop_last() =~= specs.take(i as int));
                assert(specs.take(i + 1).last() == specs[i as int]);
                assert(out@ == plan_down_spec(specs.take(i + 1), self.containers@));
            }
            i = i + 1;
        }
        proof {
            assert(self.composition.containers@.take(n as int) =~= self.composition.containers@);
        }
        Ok(out)
    }

    /// The observed containers whose service label is missing or names no
    /// declared service: left behind when a service leaves the compose file.
    pub fn find_orphans(&mut self) -> (r: Result<Vec<ContainerName>, ControllerError>)
        requires
            old(self).wf(),
        ensures
            *final(self) == *old(self),
            match r {
                Ok(v) => v@ == orphans_spec(old(self).containers.entry_seq(), old(self).composition),
                Err(_) => false,
            },
    {
        let mut out: Vec<ContainerName> = Vec::new();
        let m = self.containers.len();
        let mut k: usize = 0;
        while k < m
            invariant
                k <= m,
                m == self.containers.entry_seq().len(),
                *self == *old(self),
                self.wf(),
                out@ == orphans_spec(
                    self.containers.entry_seq().take(k as int),
                    self.composition,
                ),
            decreases m - k,
        {
            let ghost obs_seq = self.containers.entry_seq();
            let c = &self.containers.entries[k];
            proof {
                assert(obs_seq[k as int].wf());
            }
            let is_declared_service = match c.labels.get(LABEL_SERVICE) {
                Some(svc) => self.declares_service_exec(svc.as_str()),
                None => false,
            };
            if !is_declared_service {
                out.push(ContainerName(c.name.0.clone()));
            }
            proof {
                assert(obs_seq.take(k + 1).drop_last() =~= obs_seq.take(k as int));
                assert(obs_seq.take(k + 1).last() == obs_seq[k as int]);
                assert(out@ == orphans_spec(obs_seq.take(k + 1), self.composition));
            }
            k = k + 1;
        }
        proof {
            assert(self.containers.entry_seq().take(m as int) =~= self.containers.entry_seq());
        }
        Ok(out)
    }

    /// Acquires every image declared for pulling. Under `IfNotPresent` an
    /// image already held by the runtime is left alone; under `Always` every
    /// declared image is pulled.
    pub fn pull_images(&mut self, pull_policy: PullPolicy) -> (r: Result<(), ControllerError>)
        requires
            old(self).wf(),
        ensures
            final(self).composition == old(self).composition,
            final(self).containers == old(self).containers,
            final(self).project_name == old(self).project_name,
            final(self).wf(),
            match r {
                Ok(_) => true,
                Err(e) => e is Backend,
            },
    {
        let n = self.composition.pull_images.len();
        let mut i: usize = 0;
        while i < n
            invariant
                i <= n,
                n == self.composition.pull_images@.len(),
                self.composition == old(self).composition,
                self.containers == old(self).containers,
                self.project_name == old(self).project_name,
                self.wf(),
            decreases n - i,
        {
            let name = ImageName(self.composition.pull_images[i].name.0.clone());
            let image = match self.backend.get_image(&name) {
                Ok(image) => image,
                Err(e) => {
                    return Err(ControllerError::Backend(e));
                },
            };
            if should_pull(pull_policy, image.is_some()) {
                match self.backend.pull_image(&name) {
                    Ok(_) => {},
                    Err(e) => {
                        return Err(ControllerError::Backend(e));
                    },
                }
            }
            i = i + 1;
        }
        Ok(())
    }

    /// Builds every image declared for building. A build-context cache does
    /// not back `IfChanged`, so it builds unconditionally, like `Always`.
    pub fn build_images(&mut self, build_policy: BuildPolicy, pull_policy: PullPolicy) -> (r:
        Result<(), ControllerError>)
        requires
            old(self).wf(),
        ensures
            final(self).composition == old(self).composition,
            final(self).containers == old(self).containers,
            final(self).project_name == old(self).project_name,
            final(self).wf(),
            match r {
                Ok(_) => true,
                Err(e) => e is Backend,
            },
    {
        let n = self.composition.build_images.len();
        let mut i: usize = 0;
        while i < n
            invariant
                i <= n,
                n == self.composition.build_images@.len(),
                self.composition == old(self).composition,
                self.containers == old(self).containers,
                self.project_name == old(self).project_name,
                self.wf(),
            decreases n - i,
        {
            let outcome = {
                let spec = &self.composition.build_images[i];
                self.backend.build_image(spec, pull_policy)
            };
            match outcome {
                Ok(_) => {},
                Err(e) => {
                    return Err(ControllerError::Backend(e));
                },
            }
            i = i + 1;
        }
        Ok(())
    }

    /// Creates the container a specification declares: injects the three
    /// system labels, with the digest taken over the specification as it
    /// stood before injection, and hands the result to the backend.
    pub fn container_create(&mut self, spec: ContainerSpec) -> (r: Result<
        ContainerId,
        ControllerError,
    >)
        requires
            old(self).wf(),
            spec.wf(),
        ensures
            final(self).composition == old(self).composition,
            final(self).containers == old(self).containers,
            final(self).project_name == old(self).project_name,
            final(self).wf(),
            match r {
                Ok(_) => true,
                Err(e) => e is Backend,
            },
    {
        let injected = with_system_labels(&spec, self.project_name.as_str());
        match self.backend.create_container(injected) {
            Ok(id) => Ok(id),
            Err(e) => Err(ControllerError::Backend(e)),
        }
    }

    /// Applies one planned operation through the backend. The operations that
    /// need the declaration fail with `UnknownContainerName` exactly when the
    /// composition lacks the name; those that need the observed container
    /// fail with `ContainerNotFound` exactly when the observation set lacks
    /// it; any other failure is the backend's.
    pub fn container_apply(
        &mut self,
        name: &ContainerName,
        operation: ContainerOperation,
        timeout: u32,
    ) -> (r: Result<(), ControllerError>)
        requires
            old(self).wf(),
        ensures
            final(self).composition == old(self).composition,
            final(self).containers == old(self).containers,
            final(self).project_name == old(self).project_name,
            final(self).wf(),
            match r {
                Ok(_) => (op_needs_spec(operation) ==> old(self).composition.declares_name(name@))
                    && (op_needs_observed(operation) ==> old(self).containers@.contains_key(
                    name@,
                )),
                Err(ControllerError::UnknownContainerName(n)) => n@ == name@ && op_needs_spec(
                    operation,
                ) && !old(self).composition.declares_name(name@),
                Err(ControllerError::ContainerNotFound(n)) => n@ == name@ && op_needs_observed(
                    operation,
                ) && !old(self).containers@.contains_key(name@) && (op_needs_spec(operation)
                    ==> old(self).composition.declares_name(name@)),
                Err(ControllerError::Backend(_)) => (op_needs_spec(operation) ==> old(
                    self,
                ).composition.declares_name(name@)) && (op_needs_observed(operation) ==> old(
                    self,
                ).containers@.contains_key(name@)),
            },
            op_needs_spec(operation) && !old(self).composition.declares_name(name@)
                ==> r matches Err(ControllerError::UnknownContainerName(_)),
            op_needs_spec(operation) && old(self).composition.declares_name(name@)
                && op_needs_observed(operation) && !old(self).containers@.contains_key(name@)
                ==> r matches Err(ControllerError::ContainerNotFound(_)),
            !op_needs_spec(operation) && op_needs_observed(operation) && !old(
                self,
            ).containers@.contains_key(name@) ==> r matches Err(
                ControllerError::ContainerNotFound(_),
            ),
    {
        match operation {
            ContainerOperation::Create => {
                let spec = match self.find_spec(name.0.as_str()) {
                    Some(s) => s.duplicate(),
                    None => {
                        return Err(
                            ControllerError::UnknownContainerName(ContainerName(name.0.clone())),
                        );
                    },
                };
                proof {
                    lemma_contained_spec_wf(self.composition, spec);
                }
                let id = match self.container_create(spec) {
                    Ok(id) => id,
                    Err(e) => {
                        return Err(e);
                    },
                };
                match self.backend.start_container(id.0.as_str()) {
                    Ok(_) => Ok(()),
                    Err(e) => Err(ControllerError::Backend(e)),
                }
            },
            ContainerOperation::Recreate => {
                let spec = match self.find_spec(name.0.as_str()) {
                    Some(s) => s.duplicate(),
                    None => {
                        return Err(
                            ControllerError::UnknownContainerName(ContainerName(name.0.clone())),
                        );
                    },
                };
                proof {
                    lemma_contained_spec_wf(self.composition, spec);
                }
                let (observed_id, observed_running) = match self.containers.get(name.0.as_str()) {
                    Some(c) => (c.id.0.clone(), matches!(c.status, ContainerStatus::Running)),
                    None => {
                        return Err(
                            ControllerError::ContainerNotFound(ContainerName(name.0.clone())),
                        );
                    },
                };
                if observed_running {
                    match self.backend.stop_container(observed_id.as_str(), timeout) {
                        Ok(_) => {},
                        Err(e) => {
                            return Err(ControllerError::Backend(e));
                        },
                    }
                }
                match self.backend.remove_container(observed_id.as_str(), false) {
                    Ok(_) => {},
                    Err(e) => {
                        return Err(ControllerError::Backend(e));
                    },
                }
                let id = match self.container_create(spec) {
                    Ok(id) => id,
                    Err(e) => {
                        return Err(e);
                    },
                };
                match self.backend.start_container(id.0.as_str()) {
                    Ok(_) => Ok(()),
                    Err(e) => Err(ControllerError::Backend(e)),
                }
            },
            ContainerOperation::Start => {
                let observed_id = match self.containers.get(name.0.as_str()) {
                    Some(c) => c.id.0.clone(),
                    None => {
                        return Err(
                            ControllerError::ContainerNotFound(ContainerName(name.0.clone())),
                        );
                    },
                };
                match self.backend.start_container(observed_id.as_str()) {
                    Ok(_) => Ok(()),
                    Err(e) => Err(ControllerError::Backend(e)),
                }
            },
            ContainerOperation::Stop => {
                let observed_id = match self.containers.get(name.0.as_str()) {
                    Some(c) => c.id.0.clone(),
                    None => {
                        return Err(
                            ControllerError::ContainerNotFound(ContainerName(name.0.clone())),
                        );
                    },
                };
                match self.backend.stop_container(observed_id.as_str(), timeout) {
                    Ok(_) => Ok(()),
                    Err(e) => Err(ControllerError::Backend(e)),
                }
            },
            ContainerOperation::Remove => {
                let (observed_id, observed_running) = match self.containers.get(name.0.as_str()) {
                    Some(c) => (c.id.0.clone(), matches!(c.status, ContainerStatus::Running)),
                    None => {
                        return Err(
                            ControllerError::ContainerNotFound(ContainerName(name.0.clone())),
                        );
                    },
                };
                if observed_running {
                    match self.backend.stop_container(observed_id.as_str(), timeout) {
                        Ok(_) => {},
                        Err(e) => {
                            return Err(ControllerError::Backend(e));
                        },
                    }
                }
                match self.backend.remove_container(observed_id.as_str(), false) {
                    Ok(_) => Ok(()),
                    Err(e) => Err(ControllerError::Backend(e)),
                }
            },
        }
    }
}

/// The operations whose application reads the declared specification.
pub open spec fn op_needs_spec(op: ContainerOperation) -> bool {
    op == ContainerOperation::Create || op == ContainerOperation::Recreate
}

/// The operations whose application reads the observed container.
pub open spec fn op_needs_observed(op: ContainerOperation) -> bool {
    op == ContainerOperation::Recreate || op == ContainerOperation::Start || op
        == ContainerOperation::Stop || op == ContainerOperation::Remove
}

/// A specification held by a well-formed composition is well-formed.
proof fn lemma_contained_spec_wf(comp: Composition, s: ContainerSpec)
    requires
        comp.wf(),
        exists|i: int| 0 <= i < comp.containers@.len() && s.labels.entry_seq()
            == #[trigger] comp.containers@[i].labels.entry_seq(),
    ensures
        s.wf(),
{
    let i = choose|i: int|
        0 <= i < comp.containers@.len() && s.labels.entry_seq()
            == #[trigger] comp.containers@[i].labels.entry_seq();
    assert(comp.containers@[i].wf());
}

/// Whether the pull policy asks for a pull, given whether the runtime
/// already holds the image: always under `Always`, and exactly on absence
/// under `IfNotPresent`.
pub fn should_pull(policy: PullPolicy, present: bool) -> (r: bool)
    ensures
        r == (policy == PullPolicy::Always || !present),
{
    match policy {
        PullPolicy::Always => true,
        PullPolicy::IfNotPresent => !present,
    }
}

/// The labels a container is created with: the user's labels plus the three
/// system labels, the digest taken over the specification before injection.
pub open spec fn with_system_labels_spec(s: ContainerSpec, project: Seq<char>) -> Map<
    Seq<char>,
    Seq<char>,
> {
    s.labels@.insert(LABEL_PROJECT@, project).insert(LABEL_SERVICE@, s.service_name@).insert(
        LABEL_HASH@,
        spec_digest(s),
    )
}

/// Injects the three system labels into a copy of the specification. The
/// digest label records the digest of the specification as it stood before
/// injection: the user-supplied fields alone contribute to it.
pub fn with_system_labels(spec: &ContainerSpec, project: &str) -> (r: ContainerSpec)
    requires
        spec.wf(),
    ensures
        r.wf(),
        r.name == spec.name,
        r.service_name == spec.service_name,
        r.image_name == spec.image_name,
        r.labels@ == with_system_labels_spec(*spec, project@),
{
    let digest = container_spec_digest(spec);
    let mut r = spec.duplicate();
    r.labels.insert(LABEL_PROJECT.to_owned(), project.to_owned());
    r.labels.insert(LABEL_SERVICE.to_owned(), spec.service_name.clone());
    r.labels.insert(LABEL_HASH.to_owned(), digest);
    r
}

/// Rebuilds an observed container with its labels in canonical order,
/// keeping its identifier, name, status and label map.
fn normalize_container(c: &Container) -> (r: Container)
    ensures
        r.wf(),
        r.id == c.id,
        r.name == c.name,
        r.status == c.status,
        r.labels@ == c.labels@,
{
    let src = c.labels.entries();
    let n = src.len();
    let mut labels = LabelMap::new();
    let mut i: usize = 0;
    while i < n
        invariant
            i <= n,
            n == src@.len(),
            src@ == c.labels.entry_seq(),
            labels.wf(),
            labels@ == crate::labels::map_of(src@.take(i as int)),
        decreases n - i,
    {
        let k = src[i].0.clone();
        let v = src[i].1.clone();
        labels.insert(k, v);
        proof {
            assert(src@.take(i + 1).drop_last() =~= src@.take(i as int));
            assert(src@.take(i + 1).last() == src@[i as int]);
        }
        i = i + 1;
    }
    proof {
        assert(src@.take(n as int) =~= src@);
    }
    Container {
        id: crate::models::ContainerId(c.id.0.clone()),
        name: crate::models::ContainerName(c.name.0.clone()),
        status: c.status,
        labels,
    }
}

} // verus!
