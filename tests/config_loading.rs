use skillsync::config::under_dir;
use skillsync::{Config, DestinationType};

#[test]
fn test_config_has_codex_destination() {
    let config = Config::new("/srv/skills").expect("Failed to create config");

    // 1. ~/.gemini/skills (ClaudeStyle)
    // 2. ~/.gemini/antigravity/skills (ClaudeStyle)
    // 3. ~/.codex/skills (ClaudeStyle)
    // 4. ~/.cursor/skills (ClaudeStyle)
    // 5. ~/.gemini/commands (GeminiToml)
    assert_eq!(config.destinations.len(), 5, "Expected 5 destinations");

    let has_codex = config
        .destinations
        .iter()
        .any(|d| d.base_path.contains(".codex/skills"));

    let has_cursor = config
        .destinations
        .iter()
        .any(|d| d.base_path.contains(".cursor/skills"));

    assert!(
        has_codex,
        "Config should include ~/.codex/skills destination"
    );
    assert!(
        has_cursor,
        "Config should include ~/.cursor/skills destination"
    );
}

#[test]
fn config_for_home_lays_out_every_path() {
    let c = Config::for_home("/home/u", "/srv/skills");
    assert_eq!(c.source, "/srv/skills");
    assert_eq!(c.log_dir, "/home/u/skillsync/logs");
    let bases: Vec<&str> = c.destinations.iter().map(|d| d.base_path.as_str()).collect();
    assert_eq!(
        bases,
        vec![
            "/home/u/.gemini/skills",
            "/home/u/.gemini/antigravity/skills",
            "/home/u/.codex/skills",
            "/home/u/.cursor/skills",
            "/home/u/.gemini/commands",
        ]
    );
    assert_eq!(c.destinations[4].dest_type, DestinationType::GeminiToml);
    assert!(c.destinations[..4]
        .iter()
        .all(|d| d.dest_type == DestinationType::ClaudeStyle));
}

#[test]
fn under_dir_adds_one_separator() {
    assert_eq!(under_dir("/h/", "x"), "/h/x");
    assert_eq!(under_dir("/h", "x"), "/h/x");
}
