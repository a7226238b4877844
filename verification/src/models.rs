//! The data model: identifiers, image specifications, containers and the
//! parsed desired state of a project.

use vstd::prelude::*;
use crate::labels::LabelMap;
use crate::text::str_eq_chars;

verus! {

/// A runtime-assigned image identifier.
#[derive(Clone, Debug, Hash, PartialOrd, Ord, PartialEq, Eq)]
pub struct ImageId(pub String);

impl View for ImageId {
    type V = Seq<char>;

    open spec fn view(&self) -> Seq<char> {
        self.0@
    }
}

/// The name an image is pulled or built under.
#[derive(Clone, Debug, Hash, PartialOrd, Ord, PartialEq, Eq)]
pub struct ImageName(pub String);

impl View for ImageName {
    type V = Seq<char>;

    open spec fn view(&self) -> Seq<char> {
        self.0@
    }
}

/// An observed image: its identifier and the labels it carries.
#[derive(Clone, Debug)]
pub struct Image {
    pub id: ImageId,
    pub labels: LabelMap,
}

/// A declaration of an image to build locally.
#[derive(Clone, Debug)]
pub struct ImageBuildSpec {
    pub name: ImageName,
    pub context: String,
    pub dockerfile: String,
    pub target: Option<String>,
    pub build_args: LabelMap,
    pub labels: LabelMap,
}

/// A declaration of an image to acquire by name.
#[derive(Clone, Debug)]
pub struct ImagePullSpec {
    pub name: ImageName,
}

/// When to pull an image that is declared for pulling.
#[derive(Copy, Clone, Debug, Hash, PartialEq, Eq, Structural)]
pub enum PullPolicy {
    IfNotPresent,
    Always,
}

/// When to build an image that is declared for building.
#[derive(Copy, Clone, Debug, Hash, PartialEq, Eq, Structural)]
pub enum BuildPolicy {
    Always,
    IfChanged,
}

/// A runtime-assigned container identifier.
#[derive(Clone, Debug, Hash, PartialOrd, Ord, PartialEq, Eq)]
pub struct ContainerId(pub String);

impl View for ContainerId {
    type V = Seq<char>;

    open spec fn view(&self) -> Seq<char> {
        self.0@
    }
}

/// The stable, derived name of one container: `{project}_{service}_{index}`.
#[derive(Clone, Debug, Hash, PartialOrd, Ord, PartialEq, Eq)]
pub struct ContainerName(pub String);

impl View for ContainerName {
    type V = Seq<char>;

    open spec fn view(&self) -> Seq<char> {
        self.0@
    }
}

/// The states a runtime reports for a container. `Unknown` stands for any
/// report the controller does not recognize and must trigger reconstruction.
#[derive(Copy, Clone, Debug, Hash, PartialEq, Eq, Structural)]
pub enum ContainerStatus {
    Configured,
    Running,
    Exited,
    Unknown,
}

/// The status a runtime's textual report stands for.
pub open spec fn status_of_seq(s: Seq<char>) -> ContainerStatus {
    if s == "configured"@ {
        ContainerStatus::Configured
    } else if s == "running"@ {
        ContainerStatus::Running
    } else if s == "exited"@ {
        ContainerStatus::Exited
    } else {
        ContainerStatus::Unknown
    }
}

/// Maps a runtime's textual status report onto the closed status set.
pub fn status_of_str(s: &str) -> (r: ContainerStatus)
    ensures
        r == status_of_seq(s@),
{
    if str_eq_chars(s, "configured") {
        ContainerStatus::Configured
    } else if str_eq_chars(s, "running") {
        ContainerStatus::Running
    } else if str_eq_chars(s, "exited") {
        ContainerStatus::Exited
    } else {
        ContainerStatus::Unknown
    }
}

/// An observed runtime container.
#[derive(Clone, Debug)]
pub struct Container {
    pub id: ContainerId,
    pub name: ContainerName,
    pub status: ContainerStatus,
    pub labels: LabelMap,
}

impl Container {
    /// The label entries are in their canonical order.
    pub open spec fn wf(&self) -> bool {
        self.labels.wf()
    }
}

/// The declaration of one service replica.
#[derive(Clone, Debug)]
pub struct ContainerSpec {
    pub name: ContainerName,
    pub service_name: String,
    pub image_name: ImageName,
    pub labels: LabelMap,
}

impl ContainerSpec {
    /// The label entries are in their canonical order.
    pub open spec fn wf(&self) -> bool {
        self.labels.wf()
    }

    /// A copy of the declaration, field for field.
    pub fn duplicate(&self) -> (r: ContainerSpec)
        ensures
            r.name == self.name,
            r.service_name == self.service_name,
            r.image_name == self.image_name,
            r.labels.entry_seq() == self.labels.entry_seq(),
            r.labels@ == self.labels@,
            r.wf() == self.wf(),
    {
        ContainerSpec {
            name: ContainerName(self.name.0.clone()),
            service_name: self.service_name.clone(),
            image_name: ImageName(self.image_name.0.clone()),
            labels: self.labels.duplicate(),
        }
    }
}

/// The parsed desired state: images to pull, images to build, and one
/// container specification per declared replica.
#[derive(Clone, Debug)]
pub struct Composition {
    pub build_images: Vec<ImageBuildSpec>,
    pub pull_images: Vec<ImagePullSpec>,
    pub containers: Vec<ContainerSpec>,
}

impl Composition {
    /// No two declared containers share a name.
    pub open spec fn names_unique(&self) -> bool {
        forall|i: int, j: int|
            0 <= i < j < self.containers@.len() ==> self.containers@[i].name@
                != self.containers@[j].name@
    }

    /// Declared names are unique and every label map is in canonical order.
    pub open spec fn wf(&self) -> bool {
        &&& self.names_unique()
        &&& forall|i: int| 0 <= i < self.containers@.len() ==> (#[trigger] self.containers@[i]).wf()
    }

    /// Whether some declared container carries `name`.
    pub open spec fn declares_name(&self, name: Seq<char>) -> bool {
        exists|i: int| 0 <= i < self.containers@.len() && self.containers@[i].name@ == name
    }

    /// Whether some declared container belongs to service `service`.
    pub open spec fn declares_service(&self, service: Seq<char>) -> bool {
        exists|i: int|
            0 <= i < self.containers@.len() && self.containers@[i].service_name@ == service
    }

    /// An empty composition.
    pub fn new() -> (r: Composition)
        ensures
            r.build_images@.len() == 0,
            r.pull_images@.len() == 0,
            r.containers@.len() == 0,
            r.wf(),
    {
        Composition { build_images: Vec::new(), pull_images: Vec::new(), containers: Vec::new() }
    }

    /// Decides whether the declared container names are pairwise distinct.
    pub fn check_names_unique(&self) -> (r: bool)
        ensures
            r == self.names_unique(),
    {
        let n = self.containers.len();
        let mut i: usize = 0;
        while i < n
            invariant
                i <= n,
                n == self.containers@.len(),
                forall|a: int, b: int|
                    0 <= a < b < self.containers@.len() && a < i ==> self.containers@[a].name@
                        != self.containers@[b].name@,
            decreases n - i,
        {
            let mut j: usize = i + 1;
            while j < n
                invariant
                    i < j <= n,
                    n == self.containers@.len(),
                    forall|b: int| i < b < j ==> self.containers@[i as int].name@
                        != self.containers@[b].name@,
                decreases n - j,
            {
                if str_eq_chars(self.containers[i].name.0.as_str(), self.containers[j].name.0.as_str()) {
                    return false;
                }
                j = j + 1;
            }
            i = i + 1;
        }
        true
    }
}

impl Default for Composition {
    /// An empty composition.
    fn default() -> (r: Composition)
        ensures
            r.build_images@.len() == 0,
            r.pull_images@.len() == 0,
            r.containers@.len() == 0,
            r.wf(),
    {
        Composition::new()
    }
}

} // verus!
