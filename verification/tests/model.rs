use elten_scraper::json::Json;
use elten_scraper::model::{
    bool_of, expand_incremental, int_of, rows_of, str_of, truthy, Forum, Group, Post, Structure,
    ThreadMeta,
};

fn json(text: &str) -> Json {
    Json::parse(text).unwrap()
}

#[test]
fn expands_reference_rows_from_cache() {
    let cached = vec![
        json(r#"{"id": 1, "name": "kept"}"#),
        json(r#"{"id": 2, "name": "old"}"#),
    ];
    let incoming = vec![json(r#"{"ref": 1}"#), json(r#"{"id": 2, "name": "new"}"#)];
    let merged = expand_incremental(&incoming, &cached, "id").unwrap();
    assert_eq!(str_of(&merged[0], "name"), "kept");
    assert_eq!(str_of(&merged[1], "name"), "new");
    assert_eq!(merged.len(), 2);
}

#[test]
fn string_and_numeric_ids_match() {
    let cached = vec![json(r#"{"forumid": 7, "name": "seven"}"#)];
    let merged = expand_incremental(&[json(r#"{"ref": "7"}"#)], &cached, "forumid").unwrap();
    assert_eq!(str_of(&merged[0], "name"), "seven");
}

#[test]
fn missing_reference_forces_full_refetch() {
    let cached = vec![json(r#"{"id": 1}"#)];
    assert!(expand_incremental(&[json(r#"{"ref": 99}"#)], &cached, "id").is_none());
}

#[test]
fn truthy_accepts_the_servers_several_spellings() {
    assert!(truthy(Some(&json("true"))));
    assert!(truthy(Some(&json("1"))));
    assert!(truthy(Some(&json(r#""1""#))));
    assert!(truthy(Some(&json(r#""true""#))));
    assert!(!truthy(Some(&json("false"))));
    assert!(!truthy(Some(&json("0"))));
    assert!(!truthy(None));
}

#[test]
fn truthy_is_strict_about_everything_else() {
    assert!(truthy(Some(&json(r#""TRUE""#))));
    assert!(truthy(Some(&json("-1"))));
    assert!(!truthy(Some(&json(r#"" 1""#))));
    assert!(!truthy(Some(&json("1.0"))));
    assert!(!truthy(Some(&json("null"))));
    assert!(!truthy(Some(&json("[]"))));
    assert!(!truthy(Some(&json("9223372036854775808"))));
}

#[test]
fn rows_with_more_than_a_reference_are_taken_as_they_are() {
    let cached = vec![json(r#"{"id": 1, "name": "kept"}"#)];
    let rows = vec![json(r#"{"ref": 1, "name": "row"}"#), json("3"), json("{}")];
    let merged = expand_incremental(&rows, &cached, "id").unwrap();
    assert_eq!(merged[0].encode(), rows[0].encode());
    assert_eq!(merged[1].encode(), "3");
    assert_eq!(merged[2].encode(), "{}");
}

#[test]
fn the_last_of_several_cached_rows_counts() {
    let cached = vec![json(r#"{"id": 1, "v": 1}"#), json(r#"{"id": "1", "v": 2}"#)];
    let merged = expand_incremental(&[json(r#"{"ref": 1}"#)], &cached, "id").unwrap();
    assert_eq!(int_of(&merged[0], "v"), 2);
}

#[test]
fn references_to_everything_rebuild_the_cache() {
    let cached = vec![json(r#"{"id": 1}"#), json(r#"{"id": 2}"#), json(r#"{"id": "x"}"#)];
    let stubs = vec![json(r#"{"ref": 1}"#), json(r#"{"ref": "2"}"#), json(r#"{"ref": "x"}"#)];
    let merged = expand_incremental(&stubs, &cached, "id").unwrap();
    for i in 0..3 {
        assert_eq!(merged[i].encode(), cached[i].encode());
    }
}

#[test]
fn text_fields_are_read_leniently() {
    let v = json(r#"{"s": "a b", "n": 12, "f": 1.5, "t": true, "z": null, "l": [1, "x"]}"#);
    assert_eq!(str_of(&v, "s"), "a b");
    assert_eq!(str_of(&v, "n"), "12");
    assert_eq!(str_of(&v, "f"), "1.5");
    assert_eq!(str_of(&v, "t"), "true");
    assert_eq!(str_of(&v, "z"), "");
    assert_eq!(str_of(&v, "l"), r#"[1,"x"]"#);
    assert_eq!(str_of(&v, "missing"), "");
    assert_eq!(str_of(&json("5"), "s"), "");
}

#[test]
fn numbers_are_read_leniently() {
    let v = json(
        r#"{"n": -12, "s": " 34 ", "plus": "+5", "f": 1.9, "neg": -1.9, "big": 18446744073709551615,
            "huge": 1e300, "t": true, "no": false, "x": "12x", "z": null, "l": []}"#,
    );
    assert_eq!(int_of(&v, "n"), -12);
    assert_eq!(int_of(&v, "s"), 34);
    assert_eq!(int_of(&v, "plus"), 5);
    assert_eq!(int_of(&v, "f"), 1);
    assert_eq!(int_of(&v, "neg"), -1);
    assert_eq!(int_of(&v, "huge"), i64::MAX);
    assert_eq!(int_of(&v, "big"), i64::MAX);
    assert_eq!(int_of(&v, "t"), 1);
    assert_eq!(int_of(&v, "no"), 0);
    assert_eq!(int_of(&v, "x"), 0);
    assert_eq!(int_of(&v, "z"), 0);
    assert_eq!(int_of(&v, "l"), 0);
    assert_eq!(int_of(&v, "missing"), 0);
}

#[test]
fn flags_are_read_leniently() {
    let v = json(r#"{"a": true, "b": 2, "c": " 1 ", "d": "True", "e": "yes", "f": 0, "g": 1.5}"#);
    assert!(bool_of(&v, "a"));
    assert!(bool_of(&v, "b"));
    assert!(bool_of(&v, "c"));
    assert!(bool_of(&v, "d"));
    assert!(!bool_of(&v, "e"));
    assert!(!bool_of(&v, "f"));
    assert!(!bool_of(&v, "g"));
    assert!(!bool_of(&v, "missing"));
}

#[test]
fn lists_that_are_not_there_are_empty() {
    let v = json(r#"{"l": [1, 2], "o": {}}"#);
    assert_eq!(rows_of(&v, "l").len(), 2);
    assert_eq!(rows_of(&v, "o").len(), 0);
    assert_eq!(rows_of(&v, "missing").len(), 0);
}

#[test]
fn catalog_rows_become_groups_forums_and_threads() {
    let g = Group::from_row(&json(
        r#"{"id": "5", "name": "G", "founder": "f", "description": "d", "lang": "en", "public": 1,
            "open": "1", "hidden": false, "recommended": true, "parent": 2, "created": 3,
            "forums": 4, "threads": 5, "posts": 6, "acmembers": 7, "audiolimit": 8}"#,
    ));
    assert_eq!((g.id, g.parent, g.created, g.forums), (5, 2, 3, 4));
    assert_eq!((g.threads, g.posts, g.members, g.audio_limit), (5, 6, 7, 8));
    assert_eq!((g.public, g.open, g.hidden, g.recommended), (true, true, false, true));
    assert_eq!((g.name.as_str(), g.founder.as_str(), g.lang.as_str()), ("G", "f", "en"));

    let f = Forum::from_row(&json(
        r#"{"forumid": 7, "id": "PL_ELTEN", "name": "F", "type": 1, "group_id": 5,
            "description": "d", "closed": "1", "threads": 2, "posts": 3, "position": 4}"#,
    ));
    assert_eq!((f.id, f.kind, f.group_id, f.threads, f.posts, f.position), (7, 1, 5, 2, 3, 4));
    assert_eq!((f.ident.as_str(), f.name.as_str(), f.closed), ("PL_ELTEN", "F", true));

    let t = ThreadMeta::from_row(&json(
        r#"{"id": 9, "name": "T", "author": "a", "forumid": 7, "pinned": 1, "closed": 0,
            "last_update": 99, "posts": 3}"#,
    ));
    assert_eq!((t.id, t.forum_id, t.last_update, t.posts), (9, 7, 99, 3));
    assert_eq!((t.name.as_str(), t.author.as_str(), t.pinned, t.closed), ("T", "a", true, false));
}

#[test]
fn posts_keep_their_untouched_row() {
    let row = r#"{"audio":{"content_type":"audio/opus","id":"k","url":"/u"},"id":1,"new_field":[1]}"#;
    let p = Post::from_row(&json(row), 44);
    assert_eq!((p.id, p.thread_id), (1, 44));
    let audio = p.audio.unwrap();
    assert_eq!((audio.key.as_str(), audio.url.as_str()), ("k", "/u"));
    assert_eq!(audio.content_type, "audio/opus");
    assert_eq!(p.raw.encode(), row);
}

#[test]
fn audio_without_url_is_no_audio() {
    assert!(Post::from_row(&json(r#"{"audio": {"id": "k"}}"#), 1).audio.is_none());
    assert!(Post::from_row(&json(r#"{"audio": null}"#), 1).audio.is_none());
    assert!(Post::from_row(&json("{}"), 1).audio.is_none());
}

#[test]
fn an_empty_answer_is_an_empty_catalog() {
    let s = Structure::from_data(&json("{}"));
    assert_eq!((s.groups.len(), s.forums.len(), s.threads.len()), (0, 0, 0));
    assert_eq!(s.ident, "");
}
