use kovia::knowledge::{CanonState, SourceAuthority};
use kovia::vault::{load, load_configured, VaultFile};
use std::path::PathBuf;

#[test]
fn indexes_markdown_and_preserves_provenance() {
    let root = PathBuf::from("/vault");
    let files = vec![VaultFile {
        path: root.join("91 - Recovered Conversation Memory").join("Eastern Wall.md"),
        relative_path: "91 - Recovered Conversation Memory/Eastern Wall.md".to_string(),
        file_stem: Some("Eastern Wall".to_string()),
        body: "---\nstatus: mixed-recovery\ntags:\n  - geography\n---\n# Eastern Wall\n\n- **[USER-STATED]** The wall is a retained fact with enough text for an excerpt.\n".to_string(),
    }];
    let index = load(root, files);
    assert_eq!(index.notes.len(), 1);
    assert_eq!(index.notes[0].title, "Eastern Wall");
    assert_eq!(index.notes[0].authority, SourceAuthority::UserStated);
    assert_eq!(index.notes[0].canon_state, CanonState::Working);
    assert_eq!(index.notes[0].tags, vec!["geography"]);
}

#[test]
fn blank_files_yield_no_note() {
    let root = PathBuf::from("/vault");
    let files = vec![
        VaultFile { path: root.join("a.md"), relative_path: "a.md".to_string(), file_stem: Some("a".to_string()), body: " \n".to_string() },
        VaultFile { path: root.join("b.md"), relative_path: "b.md".to_string(), file_stem: Some("b".to_string()), body: "Plain text".to_string() },
    ];
    let index = load(root, files);
    assert_eq!(index.notes.len(), 1);
    assert_eq!(index.notes[0].id, 1);
    assert_eq!(index.notes[0].title, "b");
}

#[test]
fn loading_errors_name_the_root() {
    let r = load_configured("/missing", Err("not found".to_string()));
    assert_eq!(r.unwrap_err(), "Could not index /missing: not found");
}

fn found(relative: &str) -> kovia::vault::FoundFile {
    let name = relative.rsplit('/').next().unwrap().to_string();
    let stem = name.strip_suffix(".md").map(str::to_string);
    kovia::vault::FoundFile {
        path: PathBuf::from("/vault").join(relative),
        relative_path: relative.to_string(),
        file_name: name,
        file_stem: stem,
    }
}

#[test]
fn only_markdown_files_are_indexed_in_path_order() {
    let files = vec![
        found("b.md"),
        found("a-b.md"),
        found("notes.txt"),
        found("a/b.md"),
        found(".md"),
        found("readme.MD"),
        found("a.md"),
    ];
    let sorted = kovia::vault::markdown_files(files);
    let order: Vec<&str> = sorted.iter().map(|f| f.relative_path.as_str()).collect();
    assert_eq!(order, vec!["a/b.md", "a-b.md", "a.md", "b.md"]);
}

#[test]
fn a_file_that_cannot_be_read_fails_the_index() {
    let root = PathBuf::from("/vault");
    let file = |rel: &str, body: &str| VaultFile {
        path: root.join(rel),
        relative_path: rel.to_string(),
        file_stem: Some(rel.trim_end_matches(".md").to_string()),
        body: body.to_string(),
    };
    let reads = vec![Ok(file("a.md", "alpha text")), Err("denied".to_string()), Err("later".to_string())];
    assert_eq!(kovia::vault::index_files(root.clone(), reads).unwrap_err(), "denied");
    let reads = vec![Ok(file("a.md", "alpha text")), Ok(file("b.md", "  ")), Ok(file("c.md", "gamma"))];
    let index = kovia::vault::index_files(root.clone(), reads).unwrap();
    assert_eq!(index.root, root);
    let ids: Vec<usize> = index.notes.iter().map(|n| n.id).collect();
    assert_eq!(ids, vec![0, 2]);
}
