use snapseg::config::{
    config_candidate, part_path, search_step, startup_settings, AppConfig, ConfigSearch, InputSize, LoadedConfig,
    ModelConfig,
};
use snapseg::registry::{
    cache_dir_or_default, default_cache_dir, hex_encode, part_file_name, part_label, resolve_part, sha256_hex,
    verify_sha256, ModelEntry, ModelPart, Registry, RegistryError,
};
use snapseg::runtime::{channel_for_polarity, Backend, BackendError, ExecutionProvider, RuntimeConfig};
use snapseg::types::{opposite, Capabilities, Polarity};

fn entry(name: &str, parts: &[&str]) -> ModelEntry {
    ModelEntry {
        name: name.to_string(),
        family: "ritm".to_string(),
        input_size: [1024, 1024],
        license: "MIT".to_string(),
        notes: String::new(),
        parts: parts
            .iter()
            .map(|p| ModelPart {
                name: p.to_string(),
                url: format!("https://example.invalid/{p}.onnx"),
                sha256: String::new(),
                size_mb: 1,
            })
            .collect(),
    }
}

#[test]
fn hex_and_sha256() {
    assert_eq!(hex_encode(&[0x00, 0xab, 0xff, 0x10]), "00abff10");
    assert_eq!(hex_encode(&[]), "");
    assert_eq!(
        sha256_hex(b"abc"),
        "ba7816bf8f01cfea414140de5dae2223b00361a396177a9cb410ff61f20015ad"
    );
    assert_eq!(
        sha256_hex(b""),
        "e3b0c44298fc1c149afbf4c8996fb92427ae41e4649b934ca495991b7852b855"
    );
}

#[test]
fn sha256_verification() {
    let good = "BA7816BF8F01CFEA414140DE5DAE2223B00361A396177A9CB410FF61F20015AD";
    assert_eq!(verify_sha256(good, Some(b"abc")), Some(true));
    assert_eq!(verify_sha256(good, Some(b"abd")), Some(false));
    assert_eq!(verify_sha256(good, None), None);
    // An empty or all-zero hash accepts anything.
    assert_eq!(verify_sha256("", None), Some(true));
    assert_eq!(verify_sha256("0000", Some(b"x")), Some(true));
}

#[test]
fn registry_lookups() {
    let reg = Registry { models: vec![entry("a", &["model"]), entry("b", &["encoder", "decoder"])] };
    assert_eq!(reg.get("b").map(|e| e.name.as_str()), Some("b"));
    assert!(reg.get("c").is_none());
    let b = reg.get("b").unwrap();
    assert_eq!(b.part("decoder").map(|p| p.name.as_str()), Some("decoder"));
    assert!(b.part("model").is_none());
}

#[test]
fn part_naming_and_resolution() {
    assert_eq!(part_file_name("mobile-sam", "encoder"), "mobile-sam--encoder.onnx");
    assert_eq!(part_label("mobile-sam", "encoder"), "mobile-sam/encoder");
    assert_eq!(
        resolve_part("m", "encoder", "/c/m--encoder.onnx".to_string(), true),
        Ok(("encoder".to_string(), "/c/m--encoder.onnx".to_string()))
    );
    assert_eq!(
        resolve_part("m", "encoder", "/c/m--encoder.onnx".to_string(), false),
        Err(RegistryError::Missing {
            name: "m/encoder".to_string(),
            path: "/c/m--encoder.onnx".to_string()
        })
    );
    assert_eq!(cache_dir_or_default(None), "./models");
    assert_eq!(cache_dir_or_default(Some("/x".to_string())), "/x");
}

#[test]
fn input_size_shapes() {
    assert_eq!(InputSize::Square(1024).as_hw(), (1024, 1024));
    assert_eq!(InputSize::HW([682, 1024]).as_hw(), (682, 1024));
}

fn loaded(source: &str) -> LoadedConfig {
    LoadedConfig {
        config: AppConfig {
            label_dir: Some("./labels".to_string()),
            refine_edges: Some(true),
            default_model: Some(ModelConfig {
                name: "mobile-sam".to_string(),
                family: "mobile_sam".to_string(),
                input_size: InputSize::Square(1024),
                parts: vec![
                    ("encoder".to_string(), "e.onnx".to_string()),
                    ("decoder".to_string(), "/abs/d.onnx".to_string()),
                ],
            }),
            onnxruntime_path: None,
        },
        source: source.to_string(),
    }
}

#[test]
fn config_relative_paths() {
    let cfg = loaded("/work/snapseg.toml");
    assert_eq!(cfg.dir(), "/work");
    assert_eq!(cfg.resolve("e.onnx"), "/work/e.onnx");
    assert_eq!(cfg.resolve("/abs/d.onnx"), "/abs/d.onnx");
    let model = cfg.config.default_model.as_ref().unwrap();
    assert_eq!(part_path(&model.parts, "decoder").map(|s| s.as_str()), Some("/abs/d.onnx"));
    assert!(part_path(&model.parts, "model").is_none());
    assert_eq!(loaded("snapseg.toml").dir(), "");
    assert_eq!(loaded("/").dir(), ".");
}

#[test]
fn upward_config_search() {
    assert_eq!(config_candidate("/a/b"), "/a/b/snapseg.toml");
    assert_eq!(search_step("/a/b", true), ConfigSearch::Found("/a/b/snapseg.toml".to_string()));
    assert_eq!(search_step("/a/b", false), ConfigSearch::Up("/a".to_string()));
    assert_eq!(search_step("/", false), ConfigSearch::NotFound);
}

#[test]
fn runtime_basics() {
    assert_eq!(ExecutionProvider::TensorRt.name(), "TensorRT");
    assert_eq!(ExecutionProvider::DirectMl.name(), "DirectML");
    let cfg = RuntimeConfig::default();
    assert_eq!(cfg.ep_priority.len(), 5);
    assert_eq!(cfg.ep_priority[4], ExecutionProvider::Cpu);
    assert_eq!(cfg.optimization_level, 3);
    assert!(cfg.intra_threads.is_none() && cfg.inter_threads.is_none());
    match Backend::load("/no/such/model.onnx".to_string(), &cfg) {
        Err(e) => {
            assert_eq!(e, BackendError::ModelMissing("/no/such/model.onnx".to_string()));
            assert_eq!(e.message(), "model file not found: /no/such/model.onnx");
        }
        Ok(_) => panic!("missing model must fail"),
    }
    let b = Backend::load(".".to_string(), &cfg).expect("existing path");
    assert_eq!(b.model_path(), ".");
    assert_eq!(b.execution_provider(), ExecutionProvider::Cpu);
    assert_eq!(BackendError::NoEpAvailable.message(), "failed to initialize any execution provider");
    assert_eq!(BackendError::Other("x".to_string()).message(), "runtime error: x");
}

#[test]
fn polarity_and_capabilities() {
    assert_eq!(opposite(Polarity::Positive), Polarity::Negative);
    assert_eq!(opposite(Polarity::Negative), Polarity::Positive);
    assert_eq!(channel_for_polarity(Polarity::Positive), 0);
    assert_eq!(channel_for_polarity(Polarity::Negative), 1);
    let caps = Capabilities {
        positive_clicks: false,
        negative_clicks: false,
        bbox: true,
        scribble: false,
        mask_input: false,
        recommended_input_size: (1, 1),
    };
    assert!(!caps.supports_clicks());
}

#[test]
fn startup_settings_follow_the_config() {
    let s = startup_settings(loaded("/w/snapseg.toml").config);
    assert_eq!(s.label_dir, "./labels");
    assert!(s.refine_edges);
    assert_eq!(s.autoload.map(|m| m.name), Some("mobile-sam".to_string()));
    let empty = AppConfig { label_dir: None, refine_edges: None, default_model: None, onnxruntime_path: None };
    let s = startup_settings(empty);
    assert_eq!(s.label_dir, "./labels");
    assert!(!s.refine_edges);
    assert!(s.autoload.is_none());
    let custom = AppConfig {
        label_dir: Some("/data/labels".to_string()),
        refine_edges: Some(false),
        default_model: None,
        onnxruntime_path: Some("/opt/ort/libonnxruntime.dylib".to_string()),
    };
    assert_eq!(startup_settings(custom).label_dir, "/data/labels");
}

#[test]
fn default_cache_dir_names_snapseg() {
    let d = default_cache_dir();
    assert!(d == "./models" || d.contains("snapseg"), "got {d}");
}
