use script_picker::app::{App, Event, Outcome};
use script_picker::document::{Document, Member};
use script_picker::matching::{check_embedding, match_entry, rank, Item, MatchResult};

fn item(key: &str, value: &str) -> Item {
    Item { key: key.to_string(), value: value.to_string() }
}

fn doc_of(pairs: &[(&str, &str)]) -> Document {
    Document { scripts: pairs.iter().map(|(k, v)| item(k, v)).collect() }
}

fn keys(rs: &[MatchResult]) -> Vec<String> {
    rs.iter().map(|m| m.key.clone()).collect()
}

fn entry(key: &str, score: i64) -> MatchResult {
    MatchResult {
        key: key.to_string(),
        value: String::new(),
        score,
        positions: vec![],
        display: key.to_string(),
    }
}

fn session(pairs: &[(&str, &str)]) -> App {
    App::start(doc_of(pairs))
}

#[test]
fn query_keeps_only_matching_items() {
    let doc = doc_of(&[("build", "webpack"), ("test", "jest")]);
    let rs = doc.search("te");
    assert_eq!(keys(&rs), vec!["test".to_string()]);
    assert_eq!(rs[0].display, "test : jest");
    assert_eq!(rs[0].positions, vec![0, 1]);
}

#[test]
fn empty_query_lists_every_item_in_order() {
    let doc = doc_of(&[("a", "x"), ("b", "y")]);
    let rs = doc.search("");
    assert_eq!(keys(&rs), vec!["a".to_string(), "b".to_string()]);
    assert_eq!(rs[0].display, "a : x");
    assert_eq!(rs[1].display, "b : y");
    assert!(rs.iter().all(|m| m.positions.is_empty() && m.score == 0));
}

#[test]
fn single_item_move_down_twice_then_confirm() {
    let mut app = session(&[("build", "webpack")]);
    assert!(matches!(app.handle_event(Event::CharTyped('b')), Outcome::Editing));
    assert_eq!(app.messages.len(), 1);
    app.handle_event(Event::MoveDown);
    app.handle_event(Event::MoveDown);
    assert_eq!(app.index, 0);
    match app.handle_event(Event::Confirm) {
        Outcome::Confirmed(k) => assert_eq!(k, "build"),
        _ => panic!("expected a confirmed key"),
    }
    assert_eq!(app.run_script(), Some("build".to_string()));
}

#[test]
fn narrowing_to_nothing_clamps_and_confirm_is_noop() {
    let mut app = session(&[("build", "a"), ("bundle", "b"), ("bench", "c")]);
    app.handle_event(Event::CharTyped('b'));
    assert_eq!(app.messages.len(), 3);
    app.handle_event(Event::MoveDown);
    app.handle_event(Event::MoveDown);
    assert_eq!(app.index, 2);
    app.handle_event(Event::CharTyped('z'));
    assert_eq!(app.messages.len(), 0);
    assert_eq!(app.index, 0);
    assert!(matches!(app.handle_event(Event::Confirm), Outcome::Editing));
    assert!(!app.should_run_script);
    assert_eq!(app.run_script(), None);
}

#[test]
fn backspace_on_empty_query_is_noop() {
    let mut app = session(&[("a", "x"), ("b", "y")]);
    assert!(matches!(app.handle_event(Event::Backspace), Outcome::Editing));
    assert_eq!(app.input, "");
    assert_eq!(keys(&app.messages), keys(&app.doc.search("")));
    app.handle_event(Event::Backspace);
    assert_eq!(app.input, "");
    assert_eq!(app.messages.len(), 2);
}

#[test]
fn backspace_widens_the_list_again() {
    let mut app = session(&[("build", "webpack"), ("test", "jest")]);
    app.handle_event(Event::CharTyped('t'));
    app.handle_event(Event::CharTyped('e'));
    assert_eq!(keys(&app.messages), vec!["test".to_string()]);
    app.handle_event(Event::Backspace);
    assert_eq!(app.input, "t");
    app.handle_event(Event::Backspace);
    assert_eq!(app.input, "");
    assert_eq!(keys(&app.messages), vec!["build".to_string(), "test".to_string()]);
}

#[test]
fn every_listed_key_holds_the_query_as_a_subsequence() {
    let doc = doc_of(&[("build", "1"), ("lint", "2"), ("bundle-dev", "3"), ("start", "4")]);
    for q in ["bd", "BD", "ln", "st", "xyz", "bundle"] {
        for m in doc.search(q) {
            let key: Vec<char> = m.key.chars().collect();
            let query: Vec<char> = q.chars().collect();
            assert_eq!(m.positions.len(), query.len());
            for (i, &p) in m.positions.iter().enumerate() {
                assert!(p < key.len());
                assert!(i == 0 || m.positions[i - 1] < p);
                assert!(key[p].eq_ignore_ascii_case(&query[i]));
            }
        }
    }
    assert!(doc.search("xyz").is_empty());
    assert_eq!(keys(&doc.search("BD")), keys(&doc.search("bd")));
}

#[test]
fn highlight_positions_lie_inside_display() {
    let doc = doc_of(&[("axbycz", "run")]);
    let rs = doc.search("abc");
    assert_eq!(rs.len(), 1);
    assert_eq!(rs[0].positions, vec![0, 2, 4]);
    assert!(rs[0].positions.iter().all(|&p| p < rs[0].display.chars().count()));
}

#[test]
fn search_is_deterministic() {
    let doc = doc_of(&[("build", "1"), ("bundle", "2"), ("bench", "3"), ("b", "4")]);
    let a = doc.search("b");
    let b = doc.search("b");
    assert_eq!(keys(&a), keys(&b));
    let sa: Vec<i64> = a.iter().map(|m| m.score).collect();
    let sb: Vec<i64> = b.iter().map(|m| m.score).collect();
    assert_eq!(sa, sb);
    assert!(sa.windows(2).all(|w| w[0] >= w[1]));
}

#[test]
fn rank_orders_by_score_and_keeps_ties_in_order() {
    let r = rank(vec![entry("a", 1), entry("b", 5), entry("c", 1), entry("d", 5), entry("e", 3)]);
    assert_eq!(keys(&r), vec!["b", "d", "e", "a", "c"]);
    assert!(rank(vec![]).is_empty());
}

#[test]
fn match_entry_checks_the_matcher_outcome() {
    let it = item("build", "webpack");
    assert!(match_entry(&it, "bd", None).is_none());
    let m = match_entry(&it, "bd", Some((7, vec![0, 4]))).unwrap();
    assert_eq!(m.score, 7);
    assert_eq!(m.positions, vec![0, 4]);
    assert_eq!(m.display, "build : webpack");
    assert!(match_entry(&it, "bd", Some((7, vec![4, 0]))).is_none());
    assert!(match_entry(&it, "bd", Some((7, vec![0]))).is_none());
    assert!(match_entry(&it, "bd", Some((7, vec![0, 9]))).is_none());
    assert!(match_entry(&it, "bd", Some((7, vec![1, 4]))).is_none());
    assert!(match_entry(&it, "BD", Some((2, vec![0, 4]))).is_some());
}

#[test]
fn check_embedding_cases() {
    let s: Vec<char> = "Build".chars().collect();
    let q: Vec<char> = "bl".chars().collect();
    assert!(check_embedding(&q, &s, &vec![0, 3]));
    assert!(!check_embedding(&q, &s, &vec![3, 0]));
    assert!(!check_embedding(&q, &s, &vec![0, 2]));
    assert!(!check_embedding(&q, &s, &vec![0, 5]));
    assert!(check_embedding(&vec![], &s, &vec![]));
}

#[test]
fn move_up_stops_at_top_and_down_at_bottom() {
    let mut app = session(&[("a", "1"), ("b", "2")]);
    app.handle_event(Event::MoveUp);
    assert_eq!(app.index, 0);
    app.handle_event(Event::MoveDown);
    app.handle_event(Event::MoveDown);
    assert_eq!(app.index, 1);
    app.handle_event(Event::MoveUp);
    assert_eq!(app.index, 0);
}

#[test]
fn move_down_on_empty_list_is_noop() {
    let mut app = session(&[]);
    app.handle_event(Event::MoveDown);
    assert_eq!(app.index, 0);
    assert!(matches!(app.handle_event(Event::Confirm), Outcome::Editing));
}

#[test]
fn cancel_ends_without_a_key() {
    let mut app = session(&[("a", "1")]);
    assert!(matches!(app.handle_event(Event::Cancel), Outcome::Cancelled));
    assert!(!app.should_run_script);
    assert_eq!(app.run_script(), None);
}

#[test]
fn typing_keeps_the_cursor_where_it_fits() {
    let mut app = session(&[("ab", "1"), ("ac", "2"), ("bd", "3")]);
    app.handle_event(Event::MoveDown);
    assert_eq!(app.index, 1);
    app.handle_event(Event::CharTyped('a'));
    assert_eq!(app.messages.len(), 2);
    assert_eq!(app.index, 1);
}

#[test]
fn from_entries_keeps_order_and_rejects_non_strings() {
    let d = Document::from_entries(vec![
        ("z".to_string(), Some("1".to_string())),
        ("a".to_string(), Some("2".to_string())),
    ])
    .unwrap();
    assert_eq!(d.scripts.len(), 2);
    assert_eq!(d.scripts[0].key, "z");
    assert_eq!(d.scripts[1].value, "2");
    assert!(Document::from_entries(vec![("a".to_string(), None)]).is_err());
    assert!(Document::from_entries(vec![]).unwrap().scripts.is_empty());
}

#[test]
fn parse_script_reads_the_scripts_object() {
    let d = Document::parse_script(r#"{"name":"x","scripts":{"test":"jest","build":"webpack"}}"#)
        .unwrap();
    let ks: Vec<&str> = d.scripts.iter().map(|i| i.key.as_str()).collect();
    assert_eq!(ks, vec!["build", "test"]);
    assert_eq!(d.get_script("test"), Some("jest".to_string()));
}

#[test]
fn parse_script_errors() {
    assert_eq!(
        Document::parse_script(r#"{"name":"x"}"#).err(),
        Some("Key scripts not found!".to_string())
    );
    let e = Document::parse_script(r#"{"scripts":[1]}"#).err().unwrap();
    assert!(e.starts_with("Scripts key not an object: Some("));
    assert!(e.ends_with(")"));
    let e = Document::parse_script("{not json").err().unwrap();
    assert!(e.starts_with("Failed parsing json: '"));
    assert!(e.ends_with("'!"));
    assert!(Document::parse_script("[1, 2]").err().unwrap().starts_with("Failed parsing json: '"));
    assert_eq!(
        Document::parse_script(r#"{"scripts":{"ok":"x","a":1}}"#).err(),
        Some("a is not a string".to_string())
    );
}

#[test]
fn get_script_finds_value_by_key() {
    let doc = doc_of(&[("build", "webpack"), ("test", "jest")]);
    assert_eq!(doc.get_script("build"), Some("webpack".to_string()));
    assert_eq!(doc.get_script("lint"), None);
}

fn member(key: &str, entries: Option<Vec<(&str, Option<&str>)>>, debug: &str) -> Member {
    Member {
        key: key.to_string(),
        entries: entries.map(|es| {
            es.into_iter().map(|(k, v)| (k.to_string(), v.map(|t| t.to_string()))).collect()
        }),
        debug: debug.to_string(),
    }
}

#[test]
fn manifest_document_for_each_parser_outcome() {
    assert_eq!(
        Document::manifest_document(Err("bad".to_string())).err(),
        Some("Failed parsing json: 'bad'!".to_string())
    );
    assert_eq!(
        Document::manifest_document(Ok(vec![member("name", None, "Some(String(\"x\"))")])).err(),
        Some("Key scripts not found!".to_string())
    );
    assert_eq!(
        Document::manifest_document(Ok(vec![member("scripts", None, "Some(Bool(true))")])).err(),
        Some("Scripts key not an object: Some(Bool(true))".to_string())
    );
    let d = Document::manifest_document(Ok(vec![
        member("name", None, "n"),
        member("scripts", Some(vec![("b", Some("1")), ("a", Some("2"))]), "s"),
    ]))
    .unwrap();
    assert_eq!(d.scripts.len(), 2);
    assert_eq!(d.scripts[0].key, "b");
    assert_eq!(d.scripts[1].value, "2");
}

#[test]
fn from_entries_names_first_non_string() {
    let r = Document::from_entries(vec![
        ("a".to_string(), Some("1".to_string())),
        ("b".to_string(), None),
        ("c".to_string(), None),
    ]);
    assert_eq!(r.err(), Some("b is not a string".to_string()));
}

#[test]
fn start_lists_every_item() {
    let app = session(&[("x", "1"), ("y", "2")]);
    assert_eq!(keys(&app.messages), vec!["x".to_string(), "y".to_string()]);
    assert_eq!(app.index, 0);
    assert_eq!(app.input, "");
}
