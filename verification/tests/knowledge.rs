use std::path::PathBuf;

use kovia::knowledge::{
    clean_markdown, meaningful_terms, truncate, CanonState, KnowledgeNote, SourceAuthority,
    VaultIndex,
};

fn note(id: usize, title: &str, body: &str) -> KnowledgeNote {
    KnowledgeNote {
        id,
        title: title.to_owned(),
        relative_path: format!("{title}.md"),
        absolute_path: PathBuf::from(format!("/vault/{title}.md")),
        excerpt: body.to_owned(),
        body: body.to_owned(),
        tags: Vec::new(),
        canon_state: CanonState::Archive,
        authority: SourceAuthority::Archive,
    }
}

#[test]
fn search_prefers_a_title_match() {
    let index = VaultIndex {
        root: PathBuf::from("/vault"),
        notes: vec![
            note(0, "Other", "The eastern wall is mentioned once."),
            note(1, "Eastern Mountain Wall", "A focused source."),
        ],
    };

    let hits = index.search("eastern mountain wall", &[], 5);
    assert_eq!(hits[0].note_id, 1);
}

#[test]
fn search_scores_title_path_tags_and_body() {
    let mut n = note(0, "Rift", "The rift is old.\nNothing else here");
    n.tags = vec!["rift".to_owned()];
    n.authority = SourceAuthority::UserStated;
    let index = VaultIndex { root: PathBuf::from("/vault"), notes: vec![n] };
    let hits = index.search("rift", &[], 5);
    assert_eq!(hits.len(), 1);
    // title 24 + path 10 + tags 8 + body 2 + authority 5
    assert_eq!(hits[0].score, 49);
    // no line is long enough for a snippet, so the excerpt is used
    assert_eq!(hits[0].snippet, "The rift is old.\nNothing else here");
}

#[test]
fn search_without_terms_or_matches_is_empty() {
    let index = VaultIndex {
        root: PathBuf::from("/vault"),
        notes: vec![note(0, "Eastern Wall", "eastern")],
    };
    assert!(index.search("the and with", &[], 5).is_empty());
    assert!(index.search("northern", &[], 5).is_empty());
    assert_eq!(index.search("", &["eastern".to_owned()], 5).len(), 1);
    assert!(index.search("eastern", &[], 0).is_empty());
}

#[test]
fn search_breaks_ties_by_authority_then_title() {
    let mut a = note(0, "Beta", "wall");
    a.authority = SourceAuthority::Archive;
    let mut b = note(1, "Alpha", "wall");
    b.authority = SourceAuthority::Archive;
    let mut c = note(2, "Gamma", "wall");
    c.authority = SourceAuthority::StructuredVault;
    // equal textual scores once authority weight is ignored: body match only
    a.relative_path = "x.md".into();
    b.relative_path = "y.md".into();
    c.relative_path = "z.md".into();
    let index = VaultIndex { root: PathBuf::from("/vault"), notes: vec![a, b, c] };
    let hits = index.search("wall", &[], 10);
    let order: Vec<usize> = hits.iter().map(|h| h.note_id).collect();
    assert_eq!(order, vec![2, 1, 0]);
}

#[test]
fn snippet_uses_the_line_matching_most_terms() {
    let body = "# Heading\n- **Eastern** wall runs along the ridge line\n> The eastern mountain wall rises above the plain\n";
    let index = VaultIndex {
        root: PathBuf::from("/vault"),
        notes: vec![note(0, "Notes", body)],
    };
    let hits = index.search("eastern mountain", &[], 1);
    assert_eq!(hits[0].snippet, "The eastern mountain wall rises above the plain");
}

#[test]
fn meaningful_terms_drop_short_and_stop_words() {
    assert_eq!(
        meaningful_terms("What about the Eastern-Wall, 2024 and Ölberg?"),
        vec!["eastern", "wall", "2024", "ölberg"]
    );
    assert!(meaningful_terms("").is_empty());
}

#[test]
fn clean_markdown_strips_markers_and_emphasis() {
    assert_eq!(clean_markdown("  ## **Bold** [[Link]] `code`  "), "Bold Link code");
    assert_eq!(clean_markdown("> - quoted"), "quoted");
    assert_eq!(clean_markdown("***"), "");
    assert_eq!(clean_markdown("a ** b"), "a  b");
}

#[test]
fn truncate_appends_an_ellipsis_only_when_cut() {
    assert_eq!(truncate("abcdef", 3), "abc…");
    assert_eq!(truncate("abc", 3), "abc");
    assert_eq!(truncate("äöü", 2), "äö…");
}

#[test]
fn labels_and_weights_follow_authority_order() {
    assert_eq!(SourceAuthority::CanonSynthesis.weight(), 7);
    assert_eq!(SourceAuthority::Archive.weight(), 0);
    assert_eq!(SourceAuthority::AssistantReconstruction.label(), "Reconstruction");
    assert_eq!(CanonState::Contradiction.label(), "Contradiction");
}

#[test]
fn note_lookup_requires_matching_position() {
    let index = VaultIndex {
        root: PathBuf::from("/vault"),
        notes: vec![note(0, "A", "a"), note(5, "B", "b")],
    };
    assert_eq!(index.note(0).map(|n| n.title.as_str()), Some("A"));
    assert!(index.note(1).is_none());
    assert!(index.note(5).is_none());
}

#[test]
fn search_results_come_in_rank_order() {
    let mut a = note(0, "Beta Rift", "rift");
    a.authority = SourceAuthority::UserStated;
    let b = note(1, "Alpha Rift", "rift");
    let c = note(2, "Rift", "rift rift rift");
    let d = note(3, "Gamma", "A rift in the mountains.");
    let index = VaultIndex { root: PathBuf::from("/vault"), notes: vec![a, b, c, d] };
    let hits = index.search("rift", &[], 10);
    assert_eq!(hits.len(), 4);
    for pair in hits.windows(2) {
        assert!(pair[0].score >= pair[1].score);
    }
    let hits = index.search("rift", &[], 2);
    assert_eq!(hits.len(), 2);
}

#[test]
fn a_single_hit_is_ranked_whatever_its_id() {
    // a blank first file leaves the only note with id 1
    let index = VaultIndex { root: PathBuf::from("/vault"), notes: vec![note(1, "Rift", "rift")] };
    let hits = index.search("rift", &[], 5);
    assert_eq!(hits.len(), 1);
    assert_eq!(hits[0].note_id, 1);
    assert_eq!(index.try_search("rift", &[], 5).unwrap().len(), 1);
}

#[test]
fn hits_that_cannot_be_compared_are_refused() {
    let index = VaultIndex {
        root: PathBuf::from("/vault"),
        notes: vec![note(0, "Rift", "rift"), note(7, "Rift Valley", "rift")],
    };
    assert!(index.try_search("rift", &[], 5).is_none());
    assert_eq!(index.try_search("valley", &[], 5).unwrap()[0].note_id, 7);
}

#[test]
fn context_chips_search_like_words_after_the_query() {
    let index = VaultIndex {
        root: PathBuf::from("/vault"),
        notes: vec![
            note(0, "Eastern Wall", "eastern wall"),
            note(1, "Clifflands", "clifflands near the rift"),
            note(2, "Rift", "rift"),
        ],
    };
    let chips = vec!["Clifflands".to_owned(), "rift".to_owned()];
    let with_chips = index.search("eastern", &chips, 5);
    let joined = index.search("eastern Clifflands rift", &[], 5);
    let a: Vec<(usize, u32, String)> = with_chips.iter().map(|h| (h.note_id, h.score, h.snippet.clone())).collect();
    let b: Vec<(usize, u32, String)> = joined.iter().map(|h| (h.note_id, h.score, h.snippet.clone())).collect();
    assert_eq!(a, b);
    assert_eq!(a.len(), 3);
}

#[test]
fn repeating_query_words_changes_nothing() {
    let index = VaultIndex {
        root: PathBuf::from("/vault"),
        notes: vec![note(0, "Eastern Wall", "eastern wall"), note(1, "Rift", "rift wall")],
    };
    let once = index.search("eastern wall", &[], 5);
    let twice = index.search("eastern wall eastern wall", &[], 5);
    let a: Vec<(usize, u32)> = once.iter().map(|h| (h.note_id, h.score)).collect();
    let b: Vec<(usize, u32)> = twice.iter().map(|h| (h.note_id, h.score)).collect();
    assert_eq!(a, b);
}

#[test]
fn notes_are_looked_up_only_to_break_ties() {
    // a blank file left note ids that run past the list; distinct scores still rank
    let index = VaultIndex {
        root: PathBuf::from("/vault"),
        notes: vec![note(0, "Rift", "rift rift rift"), note(5, "Other", "rift")],
    };
    let hits = index.search("rift", &[], 5);
    let order: Vec<(usize, u32)> = hits.iter().map(|h| (h.note_id, h.score)).collect();
    assert_eq!(order, vec![(0, 40), (5, 2)]);
    assert_eq!(index.try_search("rift", &[], 5).unwrap().len(), 2);
}
