use elten_scraper::json::Json;
use elten_scraper::model::{Post, Structure};
use elten_scraper::store::{
    attachment_cells, attachment_ids, attachment_info_cells, cached_rows, catalog_rows, export_forum,
    now, pending_attachments, pending_audio, post_rows, stats, thread_watermarks,
    undescribed_attachments, AttachmentColumns, AttachmentInfo, AttachmentRecord, AudioColumns, Cell,
    PostExport, StoredFile, ThreadExport, Watermark,
};

fn json(text: &str) -> Json {
    Json::parse(text).unwrap()
}

fn number(c: &Cell) -> i64 {
    match c {
        Cell::Int(n) => *n,
        other => panic!("{other:?}"),
    }
}

fn text(c: &Cell) -> &str {
    match c {
        Cell::Text(s) => s,
        other => panic!("{other:?}"),
    }
}

fn columns(url: Option<&str>, path: Option<&str>, bytes: Option<i64>) -> AudioColumns {
    AudioColumns {
        post_id: 7,
        key: None,
        url: url.map(|s| s.to_string()),
        content_type: Some("audio/ogg".to_string()),
        path: path.map(|s| s.to_string()),
        bytes,
    }
}

fn never() -> Watermark {
    Watermark { scraped_at: None, scraped_last_update: None }
}

fn scraped(at: i64, last_update: i64) -> Watermark {
    Watermark { scraped_at: Some(at), scraped_last_update: Some(last_update) }
}

#[test]
fn a_catalog_refresh_keeps_the_watermarks() {
    let s = Structure::from_data(&json(
        r#"{"groups": [{"id": 1}], "forums": [{"forumid": 2}],
            "threads": [{"id": 3, "last_update": 50}, {"id": 4, "last_update": 60}]}"#,
    ));
    let rows = catalog_rows(&s, &vec![(3, scraped(9, 40)), (8, scraped(1, 1))], 100);
    assert_eq!((rows.groups.len(), rows.forums.len(), rows.threads.len()), (1, 1, 2));
    assert_eq!(rows.groups[0].len(), 18);
    assert_eq!(text(&rows.groups[0][16]), r#"{"id":1}"#);
    assert_eq!(text(&rows.threads[0][8]), r#"{"id":3,"last_update":50}"#);
    let marks = |row: &Vec<Cell>| -> Vec<Option<i64>> {
        row.iter()
            .skip(9)
            .map(|c| match c {
                Cell::Int(n) => Some(*n),
                _ => None,
            })
            .collect()
    };
    let kept = marks(&rows.threads[0]);
    assert!(kept.contains(&Some(9)) && kept.contains(&Some(40)));
    let fresh = marks(&rows.threads[1]);
    assert!(fresh.contains(&None));
}

#[test]
fn stored_rows_read_back_and_unreadable_ones_are_left_out() {
    let raws = vec![
        Some(r#"{"id":1}"#.to_string()),
        None,
        Some("not json".to_string()),
        Some("[2]".to_string()),
    ];
    let rows = cached_rows(&raws);
    assert_eq!(rows.len(), 2);
    assert_eq!((rows[0].encode().as_str(), rows[1].encode().as_str()), (r#"{"id":1}"#, "[2]"));
}

#[test]
fn a_stored_catalog_reads_back() {
    let data = r#"{"groups": [{"id": 1, "new": [true, null, "\u00e9\""]}], "forums": [{"forumid": 2}],
        "threads": [{"id": 3, "last_update": 50}, {"id": 4, "x": {"y": {}}}]}"#;
    let s = Structure::from_data(&json(data));
    let rows = catalog_rows(&s, &Vec::new(), 100);
    let column = |rows: &Vec<Vec<Cell>>, at: usize| -> Vec<Option<String>> {
        rows.iter().map(|row| Some(text(&row[at]).to_string())).collect()
    };
    let groups = cached_rows(&column(&rows.groups, 16));
    let forums = cached_rows(&column(&rows.forums, 10));
    let threads = cached_rows(&column(&rows.threads, 8));
    assert_eq!((groups.len(), forums.len(), threads.len()), (1, 1, 2));
    assert_eq!(groups[0].encode(), s.groups[0].raw.encode());
    assert_eq!(forums[0].encode(), s.forums[0].raw.encode());
    assert_eq!(threads[0].encode(), s.threads[0].raw.encode());
    assert_eq!(threads[1].encode(), s.threads[1].raw.encode());
}

#[test]
fn only_scraped_threads_have_watermarks() {
    let table = vec![
        (1, never()),
        (2, scraped(5, 50)),
        (3, Watermark { scraped_at: Some(6), scraped_last_update: None }),
    ];
    assert_eq!(thread_watermarks(&table), vec![(2, 50), (3, -1)]);
}

fn post(id: i64, attachments: &str) -> Post {
    Post::from_row(
        &json(&format!(
            "{{\"id\": {id}, \"attachments\": \"{attachments}\", \"audio\": {{\"url\": \"/u\", \"id\": \"k\"}}}}"
        )),
        10,
    )
}

#[test]
fn a_rescrape_keeps_recordings_and_known_attachments() {
    let posts = vec![post(1, "a, b,"), post(2, "b,c,,a")];
    let files = vec![(2, StoredFile::downloaded("p.ogg", 55, "ff"))];
    let write = post_rows(&posts, &files, &vec!["c".to_string()], 77, 100);
    assert_eq!(write.rows.len(), 2);
    let has = |row: &Vec<Cell>, s: &str| {
        row.iter().any(|c| matches!(c, Cell::Text(t) if t == s))
    };
    assert!(has(&write.rows[1], "p.ogg") && has(&write.rows[1], "ff"));
    assert!(!has(&write.rows[0], "p.ogg"));
    assert_eq!(write.attachments, vec![("a".to_string(), 1), ("b".to_string(), 1)]);
    assert_eq!(write.mark.scraped_at, Some(100));
    assert_eq!(write.mark.scraped_last_update, Some(77));
    assert_eq!(number(&write.rows[0][0]), 1);
}

#[test]
fn posts_read_back_from_their_raw_column() {
    let row = json(r#"{"id": 4, "unknown": {"deep": [1, "x", null, true]}, "text": "a \"b\""}"#);
    let write = post_rows(&vec![Post::from_row(&row, 10)], &vec![], &vec![], 1, 2);
    assert_eq!(json(text(&write.rows[0][19])).encode(), row.encode());
}

#[test]
fn attachment_lists_are_split_at_commas() {
    assert_eq!(attachment_ids(" a ,b,, c "), vec!["a", "b", "c"]);
    assert!(attachment_ids("").is_empty());
    assert!(attachment_ids(" , ").is_empty());
}

#[test]
fn recordings_are_pending_until_stored() {
    let jobs = pending_audio(&vec![
        columns(Some("/u"), None, None),
        columns(Some("/u"), Some(""), None),
        columns(Some("/u"), Some("p"), None),
        columns(Some(""), None, None),
        columns(None, None, None),
    ]);
    assert_eq!(jobs.len(), 2);
    assert_eq!((jobs[0].post_id, jobs[0].key.as_str(), jobs[0].url.as_str()), (7, "", "/u"));
    assert_eq!(jobs[0].content_type, "audio/ogg");
}

#[test]
fn attachments_are_pending_until_stored() {
    let row = |id: &str, post_id, path: Option<&str>| AttachmentColumns {
        id: id.to_string(),
        post_id,
        url: None,
        path: path.map(|s| s.to_string()),
    };
    let jobs = pending_attachments(&vec![
        row("a", Some(1), None),
        row("b", None, Some("")),
        row("c", Some(3), Some("p")),
    ]);
    assert_eq!(jobs, vec![("a".to_string(), 1), ("b".to_string(), 0)]);
}

#[test]
fn attachments_are_described_once_and_fetched_later() {
    let row = |id: &str, url: Option<&str>| AttachmentColumns {
        id: id.to_string(),
        post_id: Some(1),
        url: url.map(|s| s.to_string()),
        path: None,
    };
    let rows = vec![row("a", None), row("b", Some("/u")), row("c", Some(""))];
    assert_eq!(undescribed_attachments(&rows), vec!["a", "c"]);
    assert_eq!(pending_attachments(&rows).len(), 3);
}

#[test]
fn descriptions_leave_the_file_columns_alone() {
    let cells = attachment_info_cells(&AttachmentInfo {
        id: "a".to_string(),
        name: "n.txt".to_string(),
        size: 3,
        uploader: "u".to_string(),
        uploadtime: 4,
        url: "/u".to_string(),
    });
    assert_eq!(cells.len(), 5);
    assert_eq!((text(&cells[0]), number(&cells[1]), text(&cells[2])), ("n.txt", 3, "u"));
    assert_eq!((number(&cells[3]), text(&cells[4])), (4, "/u"));
}

#[test]
fn attachments_are_recorded() {
    let record = AttachmentRecord {
        id: "a".to_string(),
        name: "n.txt".to_string(),
        size: 3,
        bytes: 4,
        ..Default::default()
    };
    let cells = attachment_cells(&record, 9);
    assert!(cells.iter().any(|c| matches!(c, Cell::Text(t) if t == "n.txt")));
    assert!(cells.iter().any(|c| matches!(c, Cell::Int(4))));
    assert!(cells.iter().any(|c| matches!(c, Cell::Int(9))));
}

#[test]
fn clocks_before_the_epoch_read_zero() {
    assert_eq!(now(Some(1_700_000_000)), 1_700_000_000);
    assert_eq!(now(None), 0);
}

#[test]
fn the_database_is_counted() {
    let posts = vec![
        columns(Some("/u"), Some("p"), Some(10)),
        columns(Some("/u"), None, None),
        columns(None, None, Some(-3)),
    ];
    let attachments = vec![AttachmentColumns { id: "a".to_string(), post_id: None, url: None, path: None }];
    let s = stats(1, 2, &vec![(1, never()), (2, scraped(5, 50))], &posts, &attachments, 4).unwrap();
    assert_eq!((s.groups, s.forums, s.threads, s.threads_scraped), (1, 2, 2, 1));
    assert_eq!((s.posts, s.audio_posts, s.audio_downloaded, s.audio_bytes), (3, 2, 1, 7));
    assert_eq!((s.attachments, s.attachments_downloaded, s.errors), (1, 0, 4));
    let huge = vec![columns(None, None, Some(i64::MAX)), columns(None, None, Some(1))];
    assert!(stats(0, 0, &Vec::new(), &huge, &Vec::new(), 0).is_none());
}

fn exported(id: i64) -> PostExport {
    PostExport {
        id,
        author: "a".to_string(),
        text: "t".to_string(),
        transcription: String::new(),
        date: 1,
        likes: 2,
        audio_url: Some("/u".to_string()),
        audio_path: None,
    }
}

#[test]
fn an_export_lists_posts_by_id() {
    let thread = ThreadExport {
        id: 5,
        name: "n".to_string(),
        author: "a".to_string(),
        last_update: 9,
        posts: vec![exported(3), exported(1)],
    };
    let v = export_forum(2, &Some(r#"{"x":1}"#.to_string()), &vec![thread]);
    let post = |id: i64| {
        format!("{{\"audio_path\":null,\"audio_url\":\"/u\",\"author\":\"a\",\"date\":1,\"id\":{id},\"likes\":2,\"text\":\"t\",\"transcription\":\"\"}}")
    };
    assert_eq!(
        v.encode(),
        format!(
            "{{\"forum\":{{\"x\":1}},\"forum_id\":2,\"threads\":[{{\"author\":\"a\",\"id\":5,\"last_update\":9,\"name\":\"n\",\"posts\":[{},{}]}}]}}",
            post(1),
            post(3)
        )
    );
    let v = export_forum(2, &Some("no json".to_string()), &Vec::new());
    assert_eq!(v.encode(), r#"{"forum":null,"forum_id":2,"threads":[]}"#);
    let v = export_forum(2, &None, &Vec::new());
    assert_eq!(v.encode(), r#"{"forum":null,"forum_id":2,"threads":[]}"#);
}
