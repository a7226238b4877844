use pod_compose::controller::{ContainerOperation, Controller, LABEL_HASH, LABEL_PROJECT,
    LABEL_SERVICE};
use pod_compose::hasher::container_spec_digest;
use pod_compose::labels::LabelMap;
use pod_compose::models::{
    BuildPolicy, Composition, Container, ContainerId, ContainerName, ContainerSpec,
    ContainerStatus, Image, ImageBuildSpec, ImageId, ImageName, PullPolicy,
};
use pod_compose::services::{BackendError, ContainerBackend, ControllerError};

struct MockBackend {
    containers: Vec<Container>,
    present_images: Vec<String>,
    fail_list: bool,
    calls: Vec<String>,
}

impl MockBackend {
    fn new(containers: Vec<Container>) -> MockBackend {
        MockBackend { containers, present_images: Vec::new(), fail_list: false, calls: Vec::new() }
    }
}

impl ContainerBackend for MockBackend {
    fn get_image(&mut self, name: &ImageName) -> Result<Option<Image>, BackendError> {
        self.calls.push(format!("get_image {}", name.0));
        if self.present_images.iter().any(|n| *n == name.0) {
            Ok(Some(Image { id: ImageId("img".to_string()), labels: LabelMap::new() }))
        } else {
            Ok(None)
        }
    }

    fn pull_image(&mut self, name: &ImageName) -> Result<ImageId, BackendError> {
        self.calls.push(format!("pull_image {}", name.0));
        Ok(ImageId("img".to_string()))
    }

    fn build_image(
        &mut self,
        spec: &ImageBuildSpec,
        _pull_policy: PullPolicy,
    ) -> Result<ImageId, BackendError> {
        self.calls.push(format!("build_image {}", spec.name.0));
        Ok(ImageId("img".to_string()))
    }

    fn list_containers(
        &mut self,
        _label_filters: &Vec<(String, String)>,
    ) -> Result<Vec<Container>, BackendError> {
        self.calls.push("list_containers".to_string());
        if self.fail_list {
            Err(BackendError { message: "runtime unreachable".to_string() })
        } else {
            Ok(self.containers.clone())
        }
    }

    fn create_container(&mut self, spec: ContainerSpec) -> Result<ContainerId, BackendError> {
        self.calls.push(format!("create_container {}", spec.name.0));
        Ok(ContainerId(format!("id-{}", spec.name.0)))
    }

    fn start_container(&mut self, name: &str) -> Result<ContainerId, BackendError> {
        self.calls.push(format!("start_container {}", name));
        Ok(ContainerId(name.to_string()))
    }

    fn stop_container(&mut self, name: &str, _timeout: u32) -> Result<ContainerId, BackendError> {
        self.calls.push(format!("stop_container {}", name));
        Ok(ContainerId(name.to_string()))
    }

    fn remove_container(
        &mut self,
        name: &str,
        _remove_volumes: bool,
    ) -> Result<ContainerId, BackendError> {
        self.calls.push(format!("remove_container {}", name));
        Ok(ContainerId(name.to_string()))
    }
}

fn labels_from(pairs: &[(&str, &str)]) -> LabelMap {
    let mut m = LabelMap::new();
    for (k, v) in pairs {
        m.insert(k.to_string(), v.to_string());
    }
    m
}

fn replica_spec(project: &str, service: &str, index: u64, image: &str, labels: &[(&str, &str)]) -> ContainerSpec {
    ContainerSpec {
        name: ContainerName(format!("{}_{}_{}", project, service, index)),
        service_name: service.to_string(),
        image_name: ImageName(image.to_string()),
        labels: labels_from(labels),
    }
}

fn observed(project: &str, s: &ContainerSpec, status: ContainerStatus, hash: &str) -> Container {
    let mut labels = LabelMap::new();
    for (k, v) in s.labels.entries() {
        labels.insert(k.clone(), v.clone());
    }
    labels.insert(LABEL_PROJECT.to_string(), project.to_string());
    labels.insert(LABEL_SERVICE.to_string(), s.service_name.clone());
    labels.insert(LABEL_HASH.to_string(), hash.to_string());
    Container {
        id: ContainerId(format!("id-{}", s.name.0)),
        name: ContainerName(s.name.0.clone()),
        status,
        labels,
    }
}

fn composition_of(specs: Vec<ContainerSpec>) -> Composition {
    let mut c = Composition::new();
    c.containers = specs;
    c
}

#[test]
fn cold_up_creates_every_replica() {
    let s0 = replica_spec("proj", "web", 0, "nginx", &[]);
    let s1 = replica_spec("proj", "web", 1, "nginx", &[]);
    let comp = composition_of(vec![s0, s1]);
    let mut controller = Controller::init("proj", MockBackend::new(vec![]), comp).unwrap();
    let diff = controller.start_containers_diff().unwrap();
    assert_eq!(
        diff,
        vec![
            (ContainerName("proj_web_0".to_string()), ContainerOperation::Create),
            (ContainerName("proj_web_1".to_string()), ContainerOperation::Create),
        ]
    );
}

#[test]
fn hash_drift_recreates() {
    let s0 = replica_spec("proj", "web", 0, "nginx", &[("env", "prod")]);
    let stale = observed("proj", &s0, ContainerStatus::Running, "0000");
    let comp = composition_of(vec![s0]);
    let mut controller = Controller::init("proj", MockBackend::new(vec![stale]), comp).unwrap();
    let diff = controller.start_containers_diff().unwrap();
    assert_eq!(diff, vec![(ContainerName("proj_web_0".to_string()), ContainerOperation::Recreate)]);
}

#[test]
fn scale_down_removes_undeclared_replicas() {
    let s0 = replica_spec("proj", "web", 0, "nginx", &[]);
    let s1 = replica_spec("proj", "web", 1, "nginx", &[]);
    let s2 = replica_spec("proj", "web", 2, "nginx", &[]);
    let obs = vec![
        observed("proj", &s0, ContainerStatus::Running, &container_spec_digest(&s0)),
        observed("proj", &s1, ContainerStatus::Running, &container_spec_digest(&s1)),
        observed("proj", &s2, ContainerStatus::Running, &container_spec_digest(&s2)),
    ];
    let comp = composition_of(vec![s0]);
    let mut controller = Controller::init("proj", MockBackend::new(obs), comp).unwrap();
    let diff = controller.start_containers_diff().unwrap();
    assert_eq!(
        diff,
        vec![
            (ContainerName("proj_web_1".to_string()), ContainerOperation::Remove),
            (ContainerName("proj_web_2".to_string()), ContainerOperation::Remove),
        ]
    );
}

#[test]
fn exited_container_is_started() {
    let s0 = replica_spec("proj", "web", 0, "nginx", &[]);
    let obs = vec![observed("proj", &s0, ContainerStatus::Exited, &container_spec_digest(&s0))];
    let comp = composition_of(vec![s0]);
    let mut controller = Controller::init("proj", MockBackend::new(obs), comp).unwrap();
    let diff = controller.start_containers_diff().unwrap();
    assert_eq!(diff, vec![(ContainerName("proj_web_0".to_string()), ContainerOperation::Start)]);
}

#[test]
fn configured_container_is_started() {
    let s0 = replica_spec("proj", "web", 0, "nginx", &[]);
    let obs = vec![observed("proj", &s0, ContainerStatus::Configured, &container_spec_digest(&s0))];
    let comp = composition_of(vec![s0]);
    let mut controller = Controller::init("proj", MockBackend::new(obs), comp).unwrap();
    let diff = controller.start_containers_diff().unwrap();
    assert_eq!(diff, vec![(ContainerName("proj_web_0".to_string()), ContainerOperation::Start)]);
}

#[test]
fn unknown_status_recreates_despite_matching_hash() {
    let s0 = replica_spec("proj", "web", 0, "nginx", &[]);
    let obs = vec![observed("proj", &s0, ContainerStatus::Unknown, &container_spec_digest(&s0))];
    let comp = composition_of(vec![s0]);
    let mut controller = Controller::init("proj", MockBackend::new(obs), comp).unwrap();
    let diff = controller.start_containers_diff().unwrap();
    assert_eq!(diff, vec![(ContainerName("proj_web_0".to_string()), ContainerOperation::Recreate)]);
}

#[test]
fn matching_running_replica_is_left_alone() {
    let s0 = replica_spec("proj", "web", 0, "nginx", &[("env", "prod")]);
    let obs = vec![observed("proj", &s0, ContainerStatus::Running, &container_spec_digest(&s0))];
    let comp = composition_of(vec![s0]);
    let mut controller = Controller::init("proj", MockBackend::new(obs), comp).unwrap();
    let diff = controller.start_containers_diff().unwrap();
    assert_eq!(diff, vec![]);
}

#[test]
fn orphan_is_reported_but_not_planned() {
    let s_web = replica_spec("proj", "web", 0, "nginx", &[]);
    let s_old = replica_spec("proj", "old", 0, "nginx", &[]);
    let obs = vec![observed("proj", &s_old, ContainerStatus::Running, &container_spec_digest(&s_old))];
    let comp = composition_of(vec![s_web]);
    let mut controller = Controller::init("proj", MockBackend::new(obs), comp).unwrap();
    let orphans = controller.find_orphans().unwrap();
    assert_eq!(orphans, vec![ContainerName("proj_old_0".to_string())]);
    let diff = controller.start_containers_diff().unwrap();
    assert_eq!(diff, vec![(ContainerName("proj_web_0".to_string()), ContainerOperation::Create)]);
}

#[test]
fn container_without_service_label_is_an_orphan() {
    let orphan = Container {
        id: ContainerId("id-x".to_string()),
        name: ContainerName("proj_x_0".to_string()),
        status: ContainerStatus::Running,
        labels: LabelMap::new(),
    };
    let comp = composition_of(vec![replica_spec("proj", "web", 0, "nginx", &[])]);
    let mut controller = Controller::init("proj", MockBackend::new(vec![orphan]), comp).unwrap();
    let orphans = controller.find_orphans().unwrap();
    assert_eq!(orphans, vec![ContainerName("proj_x_0".to_string())]);
    // Not scaled down either: the up plan only creates the declared replica.
    let diff = controller.start_containers_diff().unwrap();
    assert_eq!(diff, vec![(ContainerName("proj_web_0".to_string()), ContainerOperation::Create)]);
}

#[test]
fn stop_then_down_sequence() {
    let s0 = replica_spec("proj", "web", 0, "nginx", &[]);
    let s1 = replica_spec("proj", "web", 1, "nginx", &[]);
    let running = vec![
        observed("proj", &s0, ContainerStatus::Running, &container_spec_digest(&s0)),
        observed("proj", &s1, ContainerStatus::Running, &container_spec_digest(&s1)),
    ];
    let comp = composition_of(vec![s0.clone(), s1.clone()]);
    let mut controller = Controller::init("proj", MockBackend::new(running), comp).unwrap();
    let stops = controller.stop_containers_diff().unwrap();
    assert_eq!(
        stops,
        vec![
            (ContainerName("proj_web_0".to_string()), ContainerOperation::Stop),
            (ContainerName("proj_web_1".to_string()), ContainerOperation::Stop),
        ]
    );
    // After the stops take effect, everything is Exited; down removes both,
    // and the applier skips the stop because nothing is Running.
    let exited = vec![
        observed("proj", &s0, ContainerStatus::Exited, &container_spec_digest(&s0)),
        observed("proj", &s1, ContainerStatus::Exited, &container_spec_digest(&s1)),
    ];
    let comp = composition_of(vec![s0, s1]);
    let mut controller = Controller::init("proj", MockBackend::new(exited), comp).unwrap();
    let removals = controller.remove_containers_diff().unwrap();
    assert_eq!(
        removals,
        vec![
            (ContainerName("proj_web_0".to_string()), ContainerOperation::Remove),
            (ContainerName("proj_web_1".to_string()), ContainerOperation::Remove),
        ]
    );
    for (name, op) in removals {
        controller.container_apply(&name, op, 5).unwrap();
    }
    let stop_calls: Vec<&String> =
        controller.backend.calls.iter().filter(|c| c.starts_with("stop_container")).collect();
    assert!(stop_calls.is_empty());
    let remove_calls: Vec<&String> =
        controller.backend.calls.iter().filter(|c| c.starts_with("remove_container")).collect();
    assert_eq!(remove_calls.len(), 2);
}

#[test]
fn remove_of_running_container_stops_it_first() {
    let s0 = replica_spec("proj", "web", 0, "nginx", &[]);
    let obs = vec![observed("proj", &s0, ContainerStatus::Running, &container_spec_digest(&s0))];
    let comp = composition_of(vec![s0]);
    let mut controller = Controller::init("proj", MockBackend::new(obs), comp).unwrap();
    let name = ContainerName("proj_web_0".to_string());
    controller.container_apply(&name, ContainerOperation::Remove, 7).unwrap();
    let calls = &controller.backend.calls;
    let stop_at = calls.iter().position(|c| c.starts_with("stop_container")).unwrap();
    let remove_at = calls.iter().position(|c| c.starts_with("remove_container")).unwrap();
    assert!(stop_at < remove_at);
}

#[test]
fn create_starts_the_new_container() {
    let s0 = replica_spec("proj", "web", 0, "nginx", &[]);
    let comp = composition_of(vec![s0]);
    let mut controller = Controller::init("proj", MockBackend::new(vec![]), comp).unwrap();
    let name = ContainerName("proj_web_0".to_string());
    controller.container_apply(&name, ContainerOperation::Create, 5).unwrap();
    let calls = &controller.backend.calls;
    assert!(calls.iter().any(|c| c == "create_container proj_web_0"));
    assert!(calls.iter().any(|c| c.starts_with("start_container")));
}

#[test]
fn apply_create_of_undeclared_name_fails() {
    let comp = composition_of(vec![replica_spec("proj", "web", 0, "nginx", &[])]);
    let mut controller = Controller::init("proj", MockBackend::new(vec![]), comp).unwrap();
    let name = ContainerName("proj_db_0".to_string());
    let r = controller.container_apply(&name, ContainerOperation::Create, 5);
    match r {
        Err(ControllerError::UnknownContainerName(n)) => assert_eq!(n.0, "proj_db_0"),
        other => panic!("expected UnknownContainerName, got {:?}", other),
    }
}

#[test]
fn apply_start_of_unobserved_name_fails() {
    let comp = composition_of(vec![replica_spec("proj", "web", 0, "nginx", &[])]);
    let mut controller = Controller::init("proj", MockBackend::new(vec![]), comp).unwrap();
    let name = ContainerName("proj_web_0".to_string());
    let r = controller.container_apply(&name, ContainerOperation::Start, 5);
    match r {
        Err(ControllerError::ContainerNotFound(n)) => assert_eq!(n.0, "proj_web_0"),
        other => panic!("expected ContainerNotFound, got {:?}", other),
    }
}

#[test]
fn init_propagates_backend_failure() {
    let mut backend = MockBackend::new(vec![]);
    backend.fail_list = true;
    let comp = composition_of(vec![]);
    match Controller::init("proj", backend, comp) {
        Err(ControllerError::Backend(e)) => assert_eq!(e.message, "runtime unreachable"),
        _ => panic!("expected a backend error"),
    }
}

#[test]
fn pull_respects_if_not_present() {
    let mut comp = Composition::new();
    comp.pull_images = vec![
        pod_compose::models::ImagePullSpec { name: ImageName("nginx".to_string()) },
        pod_compose::models::ImagePullSpec { name: ImageName("redis".to_string()) },
    ];
    let mut backend = MockBackend::new(vec![]);
    backend.present_images.push("nginx".to_string());
    let mut controller = Controller::init("proj", backend, comp).unwrap();
    controller.pull_images(PullPolicy::IfNotPresent).unwrap();
    let calls = &controller.backend.calls;
    assert!(!calls.iter().any(|c| c == "pull_image nginx"));
    assert!(calls.iter().any(|c| c == "pull_image redis"));
}

#[test]
fn pull_always_pulls_present_images_too() {
    let mut comp = Composition::new();
    comp.pull_images =
        vec![pod_compose::models::ImagePullSpec { name: ImageName("nginx".to_string()) }];
    let mut backend = MockBackend::new(vec![]);
    backend.present_images.push("nginx".to_string());
    let mut controller = Controller::init("proj", backend, comp).unwrap();
    controller.pull_images(PullPolicy::Always).unwrap();
    assert!(controller.backend.calls.iter().any(|c| c == "pull_image nginx"));
}

#[test]
fn build_images_builds_every_declared_spec() {
    let mut comp = Composition::new();
    comp.build_images = vec![
        ImageBuildSpec {
            name: ImageName("proj_db".to_string()),
            context: "./db".to_string(),
            dockerfile: "Dockerfile".to_string(),
            target: None,
            build_args: LabelMap::new(),
            labels: LabelMap::new(),
        },
        ImageBuildSpec {
            name: ImageName("proj_app".to_string()),
            context: "./app".to_string(),
            dockerfile: "Dockerfile".to_string(),
            target: None,
            build_args: LabelMap::new(),
            labels: LabelMap::new(),
        },
    ];
    let mut controller = Controller::init("proj", MockBackend::new(vec![]), comp).unwrap();
    // Without a build-context cache, IfChanged builds like Always.
    controller.build_images(BuildPolicy::IfChanged, PullPolicy::IfNotPresent).unwrap();
    let builds: Vec<&String> =
        controller.backend.calls.iter().filter(|c| c.starts_with("build_image")).collect();
    assert_eq!(builds.len(), 2);
}

#[test]
fn second_plan_after_faithful_apply_is_empty() {
    // Cold up, then re-observe what the applied plan creates: the second
    // up plan is empty.
    let s0 = replica_spec("proj", "web", 0, "nginx", &[("env", "prod")]);
    let s1 = replica_spec("proj", "web", 1, "nginx", &[]);
    let comp = composition_of(vec![s0.clone(), s1.clone()]);
    let mut controller = Controller::init("proj", MockBackend::new(vec![]), comp).unwrap();
    let diff = controller.start_containers_diff().unwrap();
    assert_eq!(diff.len(), 2);
    let after = vec![
        observed("proj", &s0, ContainerStatus::Running, &container_spec_digest(&s0)),
        observed("proj", &s1, ContainerStatus::Running, &container_spec_digest(&s1)),
    ];
    let comp = composition_of(vec![s0, s1]);
    let mut controller = Controller::init("proj", MockBackend::new(after), comp).unwrap();
    let second = controller.start_containers_diff().unwrap();
    assert_eq!(second, vec![]);
}
