use pod_compose::compose::{Build, DockerComposeFile, DockerComposeFrontend, MapList, Service};
use pod_compose::controller::{should_pull, with_system_labels, LABEL_HASH, LABEL_PROJECT,
    LABEL_SERVICE};
use pod_compose::hasher::{container_spec_digest, Blake3SpecHasher, DigestHasher};
use pod_compose::labels::LabelMap;
use pod_compose::models::{status_of_str, ContainerName, ContainerSpec, ContainerStatus, ImageName,
    PullPolicy};
use pod_compose::services::ComposerFrontend;
use pod_compose::text::{str_lex_lt, u64_to_dec};

fn spec_with(name: &str, service: &str, image: &str, labels: &[(&str, &str)]) -> ContainerSpec {
    let mut m = LabelMap::new();
    for (k, v) in labels {
        m.insert(k.to_string(), v.to_string());
    }
    ContainerSpec {
        name: ContainerName(name.to_string()),
        service_name: service.to_string(),
        image_name: ImageName(image.to_string()),
        labels: m,
    }
}

#[test]
fn digest_is_deterministic() {
    let a = spec_with("p_w_0", "w", "nginx", &[("a", "1"), ("b", "2")]);
    let b = spec_with("p_w_0", "w", "nginx", &[("b", "2"), ("a", "1")]);
    assert_eq!(container_spec_digest(&a), container_spec_digest(&a));
    assert_eq!(container_spec_digest(&a), container_spec_digest(&b));
}

#[test]
fn digest_is_lowercase_hex_of_length_64() {
    let a = spec_with("p_w_0", "w", "nginx", &[]);
    let d = container_spec_digest(&a);
    assert_eq!(d.len(), 64);
    assert!(d.chars().all(|c| c.is_ascii_hexdigit() && !c.is_ascii_uppercase()));
}

#[test]
fn digest_changes_with_each_field() {
    let base = spec_with("p_w_0", "w", "nginx", &[("a", "1")]);
    let other_name = spec_with("p_w_1", "w", "nginx", &[("a", "1")]);
    let other_service = spec_with("p_w_0", "x", "nginx", &[("a", "1")]);
    let other_image = spec_with("p_w_0", "w", "redis", &[("a", "1")]);
    let other_label = spec_with("p_w_0", "w", "nginx", &[("a", "2")]);
    let extra_label = spec_with("p_w_0", "w", "nginx", &[("a", "1"), ("b", "2")]);
    let d = container_spec_digest(&base);
    assert_ne!(d, container_spec_digest(&other_name));
    assert_ne!(d, container_spec_digest(&other_service));
    assert_ne!(d, container_spec_digest(&other_image));
    assert_ne!(d, container_spec_digest(&other_label));
    assert_ne!(d, container_spec_digest(&extra_label));
}

#[test]
fn hasher_trait_agrees_with_the_digest() {
    let a = spec_with("p_w_0", "w", "nginx", &[("a", "1")]);
    let mut hasher = Blake3SpecHasher;
    assert_eq!(hasher.digest_hex(&a), container_spec_digest(&a));
}

#[test]
fn system_labels_are_injected_after_hashing() {
    let base = spec_with("p_w_0", "w", "nginx", &[("env", "prod")]);
    let digest = container_spec_digest(&base);
    let injected = with_system_labels(&base, "p");
    assert_eq!(injected.labels.get(LABEL_PROJECT).unwrap().as_str(), "p");
    assert_eq!(injected.labels.get(LABEL_SERVICE).unwrap().as_str(), "w");
    assert_eq!(injected.labels.get(LABEL_HASH).unwrap(), &digest);
    assert_eq!(injected.labels.get("env").unwrap().as_str(), "prod");
    // The digest covers the user-supplied fields alone: hashing the spec
    // with the system labels in place gives a different digest.
    assert_ne!(container_spec_digest(&injected), digest);
}

#[test]
fn label_map_insert_get_and_order() {
    let mut m = LabelMap::new();
    m.insert("b".to_string(), "2".to_string());
    m.insert("a".to_string(), "1".to_string());
    m.insert("b".to_string(), "3".to_string());
    assert_eq!(m.len(), 2);
    assert_eq!(m.get("a").unwrap().as_str(), "1");
    assert_eq!(m.get("b").unwrap().as_str(), "3");
    assert!(m.get("c").is_none());
    let keys: Vec<&str> = m.entries().iter().map(|e| e.0.as_str()).collect();
    assert_eq!(keys, vec!["a", "b"]);
}

#[test]
fn lexicographic_order_on_strings() {
    assert!(str_lex_lt("a", "b"));
    assert!(str_lex_lt("a", "ab"));
    assert!(!str_lex_lt("ab", "a"));
    assert!(!str_lex_lt("a", "a"));
    assert!(str_lex_lt("", "a"));
    assert!(str_lex_lt("Z", "a"));
}

#[test]
fn decimal_rendering() {
    assert_eq!(u64_to_dec(0), "0");
    assert_eq!(u64_to_dec(7), "7");
    assert_eq!(u64_to_dec(10), "10");
    assert_eq!(u64_to_dec(1234567890), "1234567890");
    assert_eq!(u64_to_dec(u64::MAX), "18446744073709551615");
}

#[test]
fn status_parsing() {
    assert_eq!(status_of_str("configured"), ContainerStatus::Configured);
    assert_eq!(status_of_str("running"), ContainerStatus::Running);
    assert_eq!(status_of_str("exited"), ContainerStatus::Exited);
    assert_eq!(status_of_str("paused"), ContainerStatus::Unknown);
    assert_eq!(status_of_str(""), ContainerStatus::Unknown);
}

#[test]
fn pull_policy_decisions() {
    assert!(should_pull(PullPolicy::Always, true));
    assert!(should_pull(PullPolicy::Always, false));
    assert!(!should_pull(PullPolicy::IfNotPresent, true));
    assert!(should_pull(PullPolicy::IfNotPresent, false));
}

#[test]
fn map_list_splits_lines_at_the_first_equals() {
    let list = MapList::List(vec![
        "FOO=bar".to_string(),
        "PLAIN".to_string(),
        "A=b=c".to_string(),
    ]);
    let m = list.to_map();
    // The value keeps the `=` it starts with.
    assert_eq!(m.get("FOO").unwrap().as_str(), "=bar");
    assert_eq!(m.get("PLAIN").unwrap().as_str(), "");
    assert_eq!(m.get("A").unwrap().as_str(), "=b=c");
}

#[test]
fn map_list_later_line_overrides_earlier() {
    let list = MapList::List(vec!["A=1".to_string(), "A=2".to_string()]);
    let m = list.to_map();
    assert_eq!(m.len(), 1);
    assert_eq!(m.get("A").unwrap().as_str(), "=2");
}

#[test]
fn map_list_mapping_passes_through() {
    let mut inner = LabelMap::new();
    inner.insert("k".to_string(), "v".to_string());
    let m = MapList::Mapping(inner).to_map();
    assert_eq!(m.get("k").unwrap().as_str(), "v");
}

#[test]
fn composition_from_compose_file() {
    let web = Service {
        replicas: Some(2),
        image: Some("nginx".to_string()),
        build: None,
        ports: vec![],
    };
    let db = Service {
        replicas: None,
        image: None,
        build: Some(Build::Short("./db".to_string())),
        ports: vec![],
    };
    let file = DockerComposeFile {
        version: "3".to_string(),
        services: vec![("db".to_string(), db), ("web".to_string(), web)],
    };
    let mut frontend = DockerComposeFrontend::new();
    let comp = frontend.composition("proj", &file);
    let names: Vec<&str> = comp.containers.iter().map(|c| c.name.0.as_str()).collect();
    assert_eq!(names, vec!["proj_db_0", "proj_web_0", "proj_web_1"]);
    assert_eq!(comp.containers[0].service_name, "db");
    assert_eq!(comp.containers[0].image_name.0, "proj_db");
    assert_eq!(comp.containers[1].image_name.0, "nginx");
    assert_eq!(comp.pull_images.len(), 1);
    assert_eq!(comp.pull_images[0].name.0, "nginx");
    assert_eq!(comp.build_images.len(), 1);
    assert_eq!(comp.build_images[0].name.0, "proj_db");
    assert_eq!(comp.build_images[0].context, "./db");
    assert_eq!(comp.build_images[0].dockerfile, "Dockerfile");
    assert!(comp.build_images[0].target.is_none());
    assert!(comp.check_names_unique());
}

#[test]
fn composition_extended_build() {
    let app = Service {
        replicas: Some(1),
        image: None,
        build: Some(Build::Extended {
            context: "./app".to_string(),
            dockerfile: Some("Containerfile".to_string()),
            args: MapList::List(vec!["MODE=release".to_string()]),
            cache_from: vec![],
            labels: MapList::List(vec![]),
            shm_size: None,
            target: Some("final_stage".to_string()),
        }),
        ports: vec![],
    };
    let file = DockerComposeFile {
        version: "3".to_string(),
        services: vec![("app".to_string(), app)],
    };
    let mut frontend = DockerComposeFrontend::new();
    let comp = frontend.composition("proj", &file);
    assert_eq!(comp.build_images.len(), 1);
    let b = &comp.build_images[0];
    assert_eq!(b.name.0, "proj_app");
    assert_eq!(b.dockerfile, "Containerfile");
    assert_eq!(b.target.as_deref(), Some("final_stage"));
    assert_eq!(b.build_args.get("MODE").unwrap().as_str(), "=release");
    assert_eq!(comp.pull_images.len(), 0);
    assert_eq!(comp.containers.len(), 1);
    assert_eq!(comp.containers[0].name.0, "proj_app_0");
}

#[test]
fn duplicate_names_are_detected() {
    let a = spec_with("p_w_0", "w", "nginx", &[]);
    let b = spec_with("p_w_0", "w", "redis", &[]);
    let mut comp = pod_compose::models::Composition::new();
    comp.containers = vec![a, b];
    assert!(!comp.check_names_unique());
}
