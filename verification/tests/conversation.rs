use kovia::conversation::{Role, Turn};
use kovia::knowledge::SearchHit;

#[test]
fn retrieval_turns_describe_what_matched() {
    let none = Turn::retrieval(3, "wall", Vec::new());
    assert_eq!(none.role, Role::Assistant);
    assert_eq!(none.text, "No local note matched \"wall\". Try a name, place, event, or phrase used in the vault.");
    let one = Turn::retrieval(4, "wall", vec![SearchHit { note_id: 0, score: 5, snippet: "x".to_string() }]);
    assert_eq!(one.text, "One local note matched. Its passage is shown below without adding new lore.");
    let hits = vec![
        SearchHit { note_id: 0, score: 5, snippet: "x".to_string() },
        SearchHit { note_id: 1, score: 4, snippet: "y".to_string() },
    ];
    let two = Turn::retrieval(5, "wall", hits);
    assert!(two.text.starts_with("2 local notes matched."));
    assert_eq!(two.sources.len(), 2);
    let user = Turn::user(1, "Where is the wall?".to_string());
    assert_eq!(user.role, Role::User);
    assert!(user.sources.is_empty());
}
