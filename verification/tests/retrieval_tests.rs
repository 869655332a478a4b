use twk::paths::{get_wiki_path, resolve_dir};
use twk::wiki::Wiki;

fn store_with(facts: &[(&str, &[&str])]) -> Wiki {
    let mut w = Wiki::new("n".to_string(), "p".to_string());
    for (fact, tags) in facts {
        w.commit(
            fact.to_string(),
            tags.iter().map(|t| t.to_string()).collect(),
        );
    }
    w
}

#[test]
fn recall_excludes_non_matching_records() {
    let w = store_with(&[("alpha beta", &[]), ("gamma delta", &[])]);
    let hits = w.recall("alpha", None);
    assert_eq!(hits.len(), 1);
    assert_eq!(hits[0].name, "alpha beta");
    assert!(w.recall("zzz", None).is_empty());
}

#[test]
fn recall_needs_the_query_as_subsequence() {
    let w = store_with(&[("Remember to call Alice", &[])]);
    // "alice" appears in order (c-a-l-l ... A-l-i-c-e), lowercase throughout
    assert_eq!(w.recall("alice", None).len(), 1);
    // case-sensitive: the capital form does not appear as a subsequence
    assert!(w.recall("ALICE", None).is_empty());
    // characters present but out of order
    assert!(w.recall("ecila", None).is_empty());
}

#[test]
fn recall_matches_name_or_data() {
    let mut w = Wiki::new("n".to_string(), "p".to_string());
    let (id, _p, _j) = w.commit("searchable body".to_string(), Vec::new());
    // edit the body away from the name, through an exclusive session
    {
        let cell = &mut w.info[0];
        cell.write();
        cell.set_name("opaque title".to_string());
        cell.release();
    }
    let _ = id;
    let by_body = w.recall("searchable", None);
    assert_eq!(by_body.len(), 1);
    let by_name = w.recall("opaque", None);
    assert_eq!(by_name.len(), 1);
}

#[test]
fn tag_filter_skips_untagged_matches() {
    let w = store_with(&[("note one", &["work"]), ("note two", &["home"])]);
    let hits = w.recall("note", Some("work"));
    assert_eq!(hits.len(), 1);
    assert_eq!(hits[0].name, "note one");
    assert!(w.recall("note", Some("absent")).is_empty());
}

#[test]
fn tag_matching_is_exact() {
    let w = store_with(&[("fact", &["Work"])]);
    assert_eq!(w.recall_by_tag("Work").len(), 1);
    assert!(w.recall_by_tag("work").is_empty());
    assert!(w.recall_by_tag("Wor").is_empty());
}

#[test]
fn recall_by_tag_returns_exact_subset_in_order() {
    let w = store_with(&[
        ("first", &["keep"]),
        ("second", &["drop"]),
        ("third", &["keep", "drop"]),
        ("fourth", &[]),
    ]);
    let hits = w.recall_by_tag("keep");
    assert_eq!(hits.len(), 2);
    assert_eq!(hits[0].name, "first");
    assert_eq!(hits[1].name, "third");
}

#[test]
fn equal_scores_keep_collection_order() {
    // identical text scores identically; a third record matches worse
    let w = store_with(&[
        ("search target", &["a"]),
        ("s-e-a-r-c-h scattered t-a-r-g-e-t", &["b"]),
        ("search target", &["c"]),
    ]);
    let hits = w.recall("search target", None);
    assert_eq!(hits.len(), 3);
    // the two exact copies tie and keep their relative order
    assert_eq!(hits[0].tags, vec!["a".to_string()]);
    assert_eq!(hits[1].tags, vec!["c".to_string()]);
    assert_eq!(hits[2].tags, vec!["b".to_string()]);
}

#[test]
fn better_match_ranks_first() {
    let w = store_with(&[("a far scattered m-a-t-c-h word", &[]), ("match", &[])]);
    let hits = w.recall("match", None);
    assert_eq!(hits.len(), 2);
    assert_eq!(hits[0].name, "match");
}

#[test]
fn resolve_dir_prefers_local_root() {
    let local = resolve_dir(Some("/data".to_string()), "notes", false, true);
    assert_eq!(local, ".wiki/notes");
    let global = resolve_dir(Some("/data".to_string()), "notes", true, true);
    assert_eq!(global, "/data/twk/notes");
    let fallback_global = resolve_dir(None, "notes", false, false);
    assert_eq!(fallback_global, "./twk/notes");
    let no_local_root = resolve_dir(Some("/data".to_string()), "notes", false, false);
    assert_eq!(no_local_root, "/data/twk/notes");
}

#[test]
fn global_path_ends_with_store_name() {
    let p = get_wiki_path("notes", true, false);
    assert!(p.ends_with("/twk/notes"));
}

#[test]
fn overlong_query_matches_nothing() {
    // the matcher's score accumulates in sixteen bits, so queries past the
    // cap are not handed to it: they match nothing instead of overflowing
    let long_text: String = "abcdefghij".repeat(300);
    let w = store_with(&[(&long_text, &[])]);
    assert!(w.recall(&long_text, None).is_empty());
}

#[test]
fn query_at_the_cap_still_matches() {
    let text: String = "abcdefghij".repeat(100);
    let w = store_with(&[(&text, &[])]);
    assert_eq!(w.recall(&text, None).len(), 1);
}
