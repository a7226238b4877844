//! The capability interfaces the controller consumes, and the errors that
//! cross them. A backend talks to a local container runtime; any
//! implementation, including a test double, can stand behind the trait.

use vstd::prelude::*;
use crate::compose::{
    all_build_rows, all_pull_rows, all_rows, builds_match_rows, pulls_match_rows,
    specs_match_rows, DockerComposeFile,
};
use crate::models::{
    Composition, Container, ContainerId, ContainerName, ContainerSpec, Image, ImageBuildSpec,
    ImageId, ImageName, PullPolicy,
};

verus! {

/// A frontend that turns a parsed compose document into the composition it
/// describes.
pub trait ComposerFrontend {
    /// The composition the document describes for the named project: per
    /// service one image to pull or build, and one container specification
    /// per replica, named `{project}_{service}_{index}`.
    fn composition(&mut self, project_name: &str, file: &DockerComposeFile) -> (r: Composition)
        requires
            file.wf(),
        ensures
            specs_match_rows(r.containers@, all_rows(project_name@, file.services@)),
            builds_match_rows(r.build_images@, all_build_rows(project_name@, file.services@)),
            pulls_match_rows(r.pull_images@, all_pull_rows(project_name@, file.services@)),
    ;
}

/// An error a container backend reported.
#[derive(Clone, Debug)]
pub struct BackendError {
    pub message: String,
}

/// What can go wrong while planning or applying container operations.
#[derive(Debug)]
pub enum ControllerError {
    /// An operation named a container the composition does not declare.
    UnknownContainerName(ContainerName),
    /// An operation named a container the observation set does not hold.
    ContainerNotFound(ContainerName),
    /// The backend reported an error.
    Backend(BackendError),
}

/// A container backend: the capability set the controller drives. Nothing is
/// assumed of the runtime's answers; the controller states what holds of its
/// own decisions whatever comes back.
pub trait ContainerBackend {
    /// The image of that name, or `None` if the runtime does not hold one.
    fn get_image(&mut self, name: &ImageName) -> Result<Option<Image>, BackendError>;

    /// Pulls the image of that name.
    fn pull_image(&mut self, name: &ImageName) -> Result<ImageId, BackendError>;

    /// Builds the image a build specification describes.
    fn build_image(&mut self, spec: &ImageBuildSpec, pull_policy: PullPolicy) -> Result<
        ImageId,
        BackendError,
    >;

    /// The containers whose labels hold every requested `(key, value)` pair.
    fn list_containers(&mut self, label_filters: &Vec<(String, String)>) -> Result<
        Vec<Container>,
        BackendError,
    >;

    /// Creates a container and returns its runtime identifier.
    fn create_container(&mut self, spec: ContainerSpec) -> Result<ContainerId, BackendError>;

    /// Starts the container of that name or identifier.
    fn start_container(&mut self, name: &str) -> Result<ContainerId, BackendError>;

    /// Stops the container of that name or identifier.
    fn stop_container(&mut self, name: &str, timeout: u32) -> Result<ContainerId, BackendError>;

    /// Removes the container of that name or identifier.
    fn remove_container(&mut self, name: &str, remove_volumes: bool) -> Result<
        ContainerId,
        BackendError,
    >;
}

} // verus!
