use skillsync::sync::{SourceEntry, SyncAction};
use skillsync::{Destination, DestinationType, SkillSync};
use std::collections::BTreeMap;

/// A destination tree held in memory: a path maps to `None` for a directory
/// and to the text of a file otherwise.
type Tree = BTreeMap<Vec<String>, Option<String>>;

fn p(s: &str) -> Vec<String> {
    s.split('/').filter(|c| !c.is_empty()).map(String::from).collect()
}

/// A walk of a source tree holding the given files (directories included).
fn walk(files: &[(&str, &str)]) -> Vec<SourceEntry> {
    let mut seen: Vec<Vec<String>> = Vec::new();
    let mut out = Vec::new();
    for (path, text) in files {
        let comps = p(path);
        for m in 1..comps.len() {
            let dir = comps[..m].to_vec();
            if !seen.contains(&dir) {
                seen.push(dir.clone());
                out.push(SourceEntry { path: dir, content: None });
            }
        }
        out.push(SourceEntry { path: comps, content: Some(text.to_string()) });
    }
    out
}

fn apply(trees: &mut [Tree], actions: &[SyncAction]) {
    for a in actions {
        match a {
            SyncAction::Write { dest, path, content } => {
                let t = &mut trees[*dest];
                for m in 1..path.len() {
                    t.entry(path[..m].to_vec()).or_insert(None);
                }
                t.insert(path.clone(), Some(content.clone()));
            }
            SyncAction::Remove { dest, path } => {
                trees[*dest].retain(|k, _| !(k.len() >= path.len() && k[..path.len()] == path[..]));
            }
        }
    }
}

fn listings(trees: &[Tree]) -> Vec<Vec<Vec<String>>> {
    trees.iter().map(|t| t.keys().cloned().collect()).collect()
}

fn full_sync(sync: &SkillSync, entries: &Vec<SourceEntry>, trees: &mut [Tree]) {
    let writes = sync.initial_sync(entries);
    apply(trees, &writes);
    let removals = sync.cleanup_orphans(entries, &listings(trees));
    apply(trees, &removals);
}

fn engine(kinds: &[DestinationType]) -> SkillSync {
    let dests = kinds
        .iter()
        .enumerate()
        .map(|(i, k)| Destination::new(format!("/dest{}", i), *k))
        .collect();
    SkillSync::new("/src".to_string(), dests)
}

fn three_destinations() -> SkillSync {
    engine(&[
        DestinationType::ClaudeStyle,
        DestinationType::ClaudeStyle,
        DestinationType::GeminiToml,
    ])
}

fn file<'a>(t: &'a Tree, path: &str) -> Option<&'a String> {
    t.get(&p(path)).and_then(|v| v.as_ref())
}

#[test]
fn test_sync_file_claude_style() {
    let sync = three_destinations();
    let mut trees = vec![Tree::new(), Tree::new(), Tree::new()];
    let entries = walk(&[("test-skill/SKILL.md", "---\ndescription: Test\n---\nContent")]);
    full_sync(&sync, &entries, &mut trees);

    assert!(file(&trees[0], "test-skill/SKILL.md").is_some());
    assert!(file(&trees[1], "test-skill/SKILL.md").is_some());
    let content = file(&trees[0], "test-skill/SKILL.md").unwrap();
    assert!(content.contains("---\ndescription: Test\n---"));
}

#[test]
fn test_sync_file_gemini_toml() {
    let sync = three_destinations();
    let mut trees = vec![Tree::new(), Tree::new(), Tree::new()];
    let entries = walk(&[(
        "my-skill/SKILL.md",
        "---\ndescription: My test skill\n---\n\n# Test\nContent here",
    )]);
    full_sync(&sync, &entries, &mut trees);

    let content = file(&trees[2], "my-skill.toml").expect("toml written");
    assert!(content.contains("description = \"My test skill\""));
    assert!(content.contains("prompt = '''"));
    assert!(content.contains("# Test"));
    assert!(content.contains("Content here"));
    assert!(!content.contains("---"));
}

#[test]
fn test_cleanup_orphans_claude() {
    let sync = three_destinations();
    let mut trees = vec![Tree::new(), Tree::new(), Tree::new()];
    trees[0].insert(p("orphan-skill"), None);
    trees[0].insert(p("orphan-skill/SKILL.md"), Some("Orphan".to_string()));
    full_sync(&sync, &Vec::new(), &mut trees);
    assert!(!trees[0].contains_key(&p("orphan-skill")));
    assert!(trees[0].is_empty());
}

#[test]
fn test_cleanup_orphans_toml() {
    let sync = three_destinations();
    let mut trees = vec![Tree::new(), Tree::new(), Tree::new()];
    trees[2].insert(
        p("orphan-skill.toml"),
        Some("description = \"Test\"\nprompt = \"\"\"Test\"\"\"".to_string()),
    );
    full_sync(&sync, &Vec::new(), &mut trees);
    assert!(!trees[2].contains_key(&p("orphan-skill.toml")));
}

#[test]
fn test_sync_directory_recursive() {
    let sync = three_destinations();
    let mut trees = vec![Tree::new(), Tree::new(), Tree::new()];
    let entries = walk(&[("skill1/SKILL.md", "Skill 1"), ("skill2/SKILL.md", "Skill 2")]);
    full_sync(&sync, &entries, &mut trees);
    assert_eq!(file(&trees[0], "skill1/SKILL.md").unwrap(), "Skill 1");
    assert_eq!(file(&trees[0], "skill2/SKILL.md").unwrap(), "Skill 2");
}

#[test]
fn test_non_skill_files_ignored_in_toml_dest() {
    let sync = three_destinations();
    let mut trees = vec![Tree::new(), Tree::new(), Tree::new()];
    let entries = walk(&[("test-skill/README.md", "Not a skill")]);
    full_sync(&sync, &entries, &mut trees);
    assert!(!trees[2].contains_key(&p("test-skill.toml")));
    assert!(trees[2].is_empty());
    assert!(sync
        .initial_sync(&entries)
        .iter()
        .all(|a| !matches!(a, SyncAction::Write { dest: 2, .. })));
}

#[test]
fn gemini_toml_parses_with_prompt_and_description() {
    let sync = engine(&[DestinationType::GeminiToml]);
    let mut trees = vec![Tree::new()];
    let md = "---\nname: Web Design Guidelines\ndescription: \"Review my UI for accessibility & \\\"design\\\" sanity.\"\n---\n\n# Body\nHello\n";
    full_sync(&sync, &walk(&[("web-design-guidelines/SKILL.md", md)]), &mut trees);
    let txt = file(&trees[0], "web-design-guidelines.toml").expect("toml written");
    let value: toml::Value = toml::from_str(txt).expect("valid TOML");
    assert!(value.get("prompt").unwrap().is_str());
    assert!(value.get("description").unwrap().is_str());
    assert!(!value.get("prompt").unwrap().as_str().unwrap().contains("---"));
}

#[test]
fn antigravity_destination_preserves_yaml_frontmatter() {
    let sync = engine(&[DestinationType::ClaudeStyle]);
    let mut trees = vec![Tree::new()];
    let md = "---\nname: Vercel Deploy\ndescription: Deploy apps to Vercel\n---\n\nRun deployment.\n";
    full_sync(&sync, &walk(&[("vercel-deploy/SKILL.md", md)]), &mut trees);
    let out = file(&trees[0], "vercel-deploy/SKILL.md").unwrap();
    assert!(out.starts_with("---\n"));
    assert!(out.contains("description: Deploy apps to Vercel"));
    assert_eq!(out, md);
}

#[test]
fn skill_is_mirrored_and_converted() {
    let sync = engine(&[DestinationType::ClaudeStyle, DestinationType::GeminiToml]);
    let mut trees = vec![Tree::new(), Tree::new()];
    let md = "---\ndescription: \"X\"\n---\nBody";
    full_sync(&sync, &walk(&[("a/SKILL.md", md)]), &mut trees);
    assert_eq!(file(&trees[0], "a/SKILL.md").unwrap(), md);
    assert_eq!(
        file(&trees[1], "a.toml").unwrap(),
        "description = \"X\"\nprompt = '''\nBody\n'''\n"
    );
}

#[test]
fn delete_notification_removes_command_file() {
    let sync = engine(&[DestinationType::ClaudeStyle, DestinationType::GeminiToml]);
    let mut trees = vec![Tree::new(), Tree::new()];
    full_sync(&sync, &walk(&[("a/SKILL.md", "---\ndescription: \"X\"\n---\nBody")]), &mut trees);
    assert!(trees[1].contains_key(&p("a.toml")));

    let actions = sync.handle_event("/src/a/SKILL.md", &None);
    apply(&mut trees, &actions);
    assert!(!trees[1].contains_key(&p("a.toml")));
    assert!(!trees[0].contains_key(&p("a/SKILL.md")));
    assert!(trees[0].contains_key(&p("a")));
}

#[test]
fn stray_command_file_is_swept() {
    let sync = engine(&[DestinationType::GeminiToml]);
    let mut trees = vec![Tree::new()];
    trees[0].insert(p("b.toml"), Some("x".to_string()));
    trees[0].insert(p("notes.txt"), Some("kept".to_string()));
    trees[0].insert(p(".toml"), Some("kept".to_string()));
    full_sync(&sync, &walk(&[("a/SKILL.md", "A")]), &mut trees);
    assert!(!trees[0].contains_key(&p("b.toml")));
    assert!(trees[0].contains_key(&p("a.toml")));
    assert!(trees[0].contains_key(&p("notes.txt")));
    assert!(trees[0].contains_key(&p(".toml")));
}

#[test]
fn second_full_sync_changes_nothing() {
    let sync = three_destinations();
    let mut trees = vec![Tree::new(), Tree::new(), Tree::new()];
    trees[0].insert(p("old"), None);
    trees[0].insert(p("old/x.md"), Some("x".to_string()));
    trees[2].insert(p("gone.toml"), Some("g".to_string()));
    let entries = walk(&[
        ("a/SKILL.md", "---\ndescription: A\n---\nBody A"),
        ("a/notes/more.md", "more"),
        ("nested/b/SKILL.md", "B"),
    ]);
    full_sync(&sync, &entries, &mut trees);
    let first = trees.clone();
    full_sync(&sync, &entries, &mut trees);
    assert_eq!(trees, first);
    // A skill below the top level is written, then swept: `b/SKILL.md` is not at the top.
    assert!(!trees[2].contains_key(&p("b.toml")));
}

#[test]
fn mirror_holds_every_source_file() {
    let sync = engine(&[DestinationType::ClaudeStyle]);
    let mut trees = vec![Tree::new()];
    trees[0].insert(p("a/SKILL.md"), Some("stale".to_string()));
    let entries = walk(&[("a/SKILL.md", "fresh"), ("a/deep/er/f.txt", "f")]);
    full_sync(&sync, &entries, &mut trees);
    assert_eq!(file(&trees[0], "a/SKILL.md").unwrap(), "fresh");
    assert_eq!(file(&trees[0], "a/deep/er/f.txt").unwrap(), "f");
}

#[test]
fn sweep_removes_only_the_topmost_orphan() {
    let sync = engine(&[DestinationType::ClaudeStyle]);
    let entries = walk(&[("keep/SKILL.md", "k")]);
    let listing = vec![vec![
        p("keep"),
        p("keep/SKILL.md"),
        p("keep/extra.md"),
        p("gone"),
        p("gone/inner"),
        p("gone/inner/f.md"),
    ]];
    let actions = sync.cleanup_orphans(&entries, &listing);
    let removed: Vec<Vec<String>> = actions
        .into_iter()
        .map(|a| match a {
            SyncAction::Remove { dest: 0, path } => path,
            other => panic!("unexpected {:?}", other),
        })
        .collect();
    assert_eq!(removed, vec![p("keep/extra.md"), p("gone")]);
}

#[test]
fn events_outside_the_source_are_ignored() {
    let sync = three_destinations();
    assert!(sync.handle_event("/elsewhere/a/SKILL.md", &None).is_empty());
    assert!(sync.handle_event("/srcx/a/SKILL.md", &None).is_empty());
    let found = Some(vec![SourceEntry { path: Vec::new(), content: Some("x".to_string()) }]);
    assert!(sync.handle_event("/other/a.md", &found).is_empty());
}

#[test]
fn event_for_a_new_directory_pushes_what_it_holds() {
    let sync = engine(&[DestinationType::ClaudeStyle, DestinationType::GeminiToml]);
    let found = Some(vec![
        SourceEntry { path: p("SKILL.md"), content: Some("S".to_string()) },
        SourceEntry { path: p("sub"), content: None },
        SourceEntry { path: p("sub/r.md"), content: Some("R".to_string()) },
    ]);
    let mut trees = vec![Tree::new(), Tree::new()];
    apply(&mut trees, &sync.handle_event("/src//skill-x/", &found));
    assert_eq!(file(&trees[0], "skill-x/SKILL.md").unwrap(), "S");
    assert_eq!(file(&trees[0], "skill-x/sub/r.md").unwrap(), "R");
    assert_eq!(
        file(&trees[1], "skill-x.toml").unwrap(),
        "description = \"Custom skill\"\nprompt = '''\nS\n'''\n"
    );
}

#[test]
fn skill_file_at_the_root_is_named_skill() {
    let sync = engine(&[DestinationType::GeminiToml]);
    let found = Some(vec![SourceEntry { path: Vec::new(), content: Some("S".to_string()) }]);
    let actions = sync.handle_event("/src/SKILL.md", &found);
    match &actions[..] {
        [SyncAction::Write { dest: 0, path, .. }] => assert_eq!(path, &p("skill.toml")),
        other => panic!("unexpected {:?}", other),
    }
}

#[test]
fn deleting_a_directory_removes_its_mirror() {
    let sync = engine(&[DestinationType::ClaudeStyle, DestinationType::GeminiToml]);
    let actions = sync.handle_event("/src/dir", &None);
    match &actions[..] {
        [SyncAction::Remove { dest: 0, path }] => assert_eq!(path, &p("dir")),
        other => panic!("unexpected {:?}", other),
    }
}
