use branchfs::state::State;

fn fresh() -> State {
    State::new("/base".to_string(), "/ws".to_string())
}

#[test]
fn round_trip_fresh_state() {
    let s = fresh();
    let doc = s.encode();
    assert_eq!(State::decode(&doc), Some(s));
}

#[test]
fn round_trip_after_lifecycle() {
    let mut s = fresh();
    s.create("feature-a", "main").unwrap();
    s.create("feature-b", "feature-a").unwrap();
    s.commit("feature-a").unwrap();
    s.invalidate("feature-b").unwrap();
    let doc = s.encode();
    assert_eq!(State::decode(&doc), Some(s));
}

#[test]
fn round_trip_with_hostile_names() {
    let mut s = State::new("/ba se".to_string(), "".to_string());
    // Names and paths are raw strings: separators, digits, the field
    // markers and newlines must all survive.
    s.create("a:b\nc", "main").unwrap();
    s.create("+-:", "a:b\nc").unwrap();
    s.create("00000000000000000001", "main").unwrap();
    let doc = s.encode();
    assert_eq!(State::decode(&doc), Some(s));
}

#[test]
fn encoded_document_is_exact() {
    let s = State::new("b".to_string(), "w".to_string());
    let doc = s.encode();
    assert_eq!(
        doc,
        format!(
            "{:020}:b{:020}:w{:020}{:020}{:020}:main-a",
            1, 1, 0, 1, 4
        )
    );
}

#[test]
fn decode_rejects_garbage() {
    assert_eq!(State::decode(""), None);
    assert_eq!(State::decode("hello"), None);
    assert_eq!(State::decode("00000000000000000002:b"), None);
}

#[test]
fn decode_rejects_torn_documents() {
    let mut s = fresh();
    s.create("f", "main").unwrap();
    let doc = s.encode();
    // Any prefix or extension of a valid document is refused whole.
    let torn: String = doc.chars().take(doc.chars().count() - 1).collect();
    assert_eq!(State::decode(&torn), None);
    let extended = format!("{}x", doc);
    assert_eq!(State::decode(&extended), None);
}

#[test]
fn decode_rejects_documents_without_the_default_branch() {
    // One branch named `dev`, parentless and active; `main` is missing.
    let doc = format!(
        "{:020}:b{:020}:w{:020}{:020}{:020}:dev-a",
        1, 1, 7, 1, 3
    );
    assert_eq!(State::decode(&doc), None);
}

#[test]
fn decode_rejects_duplicate_names() {
    let doc = format!(
        "{:020}:b{:020}:w{:020}{:020}{:020}:main-a{:020}:main-a",
        1, 1, 0, 2, 4, 4
    );
    assert_eq!(State::decode(&doc), None);
}

#[test]
fn decode_rejects_dangling_parents() {
    let doc = format!(
        "{:020}:b{:020}:w{:020}{:020}{:020}:main-a{:020}:dev+{:020}:ghosta",
        1, 1, 0, 2, 4, 3, 5
    );
    assert_eq!(State::decode(&doc), None);
}

#[test]
fn decode_rejects_a_parented_default_branch() {
    let doc = format!(
        "{:020}:b{:020}:w{:020}{:020}{:020}:dev-a{:020}:main+{:020}:deva",
        1, 1, 0, 2, 3, 4, 3
    );
    assert_eq!(State::decode(&doc), None);
}

#[test]
fn crash_between_mutate_and_persist_loses_only_the_mutation() {
    // The daemon's discipline is mutate, then persist. Simulate a crash in
    // between: the durable document still holds the pre-mutation state, and
    // reloading it recovers that state exactly.
    let mut s = fresh();
    s.create("f", "main").unwrap();
    let persisted = s.encode();
    let before = s.clone();
    s.commit("f").unwrap();
    let reloaded = State::decode(&persisted).unwrap();
    assert_eq!(reloaded, before);
    assert_ne!(reloaded, s);
}
