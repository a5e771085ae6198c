use oasis_simulation::record::{label_hash, provider_of, repro_seed_path, sweep_seed_path};

#[test]
fn label_hash_is_fnv1a() {
    assert_eq!(label_hash(""), 0xcbf29ce484222325);
    assert_eq!(label_hash("a"), 0xaf63dc4c8601ec8c);
    assert_eq!(label_hash("foobar"), 0x85944171f73967e8);
    assert_eq!(label_hash("x"), 0xaf63f54c86021707);
}

#[test]
fn seed_paths_name_every_coordinate() {
    assert_eq!(
        repro_seed_path("x", "interest", 3),
        vec![label_hash("x"), label_hash("interest"), 3]
    );
    assert_eq!(
        sweep_seed_path("reddit", 200, 300, 1),
        vec![0xb1732b0bf58fb2a5, 200, 300, 1]
    );
    assert_ne!(repro_seed_path("x", "interest", 0), repro_seed_path("x", "hot-score", 0));
}

#[test]
fn providers_by_endpoint() {
    assert_eq!(provider_of("http://localhost:11434/api"), "ollama");
    assert_eq!(provider_of("http://my-ollama-box/v1"), "ollama");
    assert_eq!(provider_of("mock://scripted"), "mock");
    assert_eq!(provider_of("https://api.openai.com/v1"), "openai");
    assert_eq!(provider_of(""), "openai");
}
