use elten_scraper::api::Failure;
use elten_scraper::json::Json;
use elten_scraper::model::{str_of, Structure};
use elten_scraper::scrape::{
    adopted, attachment_file, attachment_info, attachment_path, attachment_phase,
    attachment_record, attachment_result, audio_adoption, audio_file, audio_phase, audio_result,
    catalog_request, coverage_text, description_result, plan_attachment, plan_threads, read_catalog,
    read_full_catalog, run_notes, short_key, size_cap, tally, thread_path, thread_posts,
    thread_result, AttachmentPhase, AudioPhase, CatalogSource, CatalogStep, Outcome,
};
use elten_scraper::store::{
    catalog_rows, post_rows, thread_watermarks, AudioJob, Cell, DbOp, Watermark,
};

fn json(text: &str) -> Json {
    Json::parse(text).unwrap()
}

fn rows(text: &str) -> Vec<Json> {
    match json(text) {
        Json::Array(rows) => rows,
        _ => Vec::new(),
    }
}

fn job(key: &str, content_type: &str) -> AudioJob {
    AudioJob {
        post_id: 17,
        key: key.to_string(),
        url: "/u".to_string(),
        content_type: content_type.to_string(),
    }
}

#[test]
fn short_keys_stay_within_path_limits() {
    // Typical audio key: already short, so it is left recognisable.
    let audio = "bNX25hABNjAuubjddixpz2eM";
    assert_eq!(short_key(audio), audio);

    // Attachment ids can run to 130+ characters.
    let long: String = std::iter::repeat('a').take(140).collect();
    let shortened = short_key(&long);
    assert!(shortened.len() <= 40, "got {} chars", shortened.len());

    // Two long keys sharing a prefix must not collide.
    let a = format!("{}{}", "x".repeat(60), "one");
    let b = format!("{}{}", "x".repeat(60), "two");
    assert_ne!(short_key(&a), short_key(&b));
}

#[test]
fn unsafe_characters_are_replaced() {
    assert_eq!(short_key("a/b\\c:d"), "a_b_c_d");
}

#[test]
fn long_keys_carry_the_digest_of_the_whole_key() {
    // The digest is that of the UTF-8 text: sha256 of 41 times "a".
    let key = "a".repeat(41);
    assert_eq!(short_key(&key), "aaaaaaaaaaaaaaaaaaaaaaaa-c0f8bd4dbc2b");
    let at_limit = "b".repeat(40);
    assert_eq!(short_key(&at_limit), at_limit);
    assert_eq!(short_key("żółw.mp3"), "___w_mp3");
    assert_eq!(short_key(""), "");
}

#[test]
fn stems_of_short_keys_are_stable() {
    for key in ["a/b", "ok-key_1", "żółw"] {
        let once = short_key(key);
        assert_eq!(short_key(&once), once);
    }
}

#[test]
fn recordings_are_sharded_and_named_by_kind() {
    let f = audio_file(&job("bNX25h", "audio/mpeg"));
    assert_eq!((f.shard.as_str(), f.name.as_str()), ("bN", "bNX25h.mp3"));
    assert_eq!(audio_file(&job("k", "audio/mp3")).name, "k.mp3");
    assert_eq!(audio_file(&job("k", "audio/wav")).name, "k.wav");
    assert_eq!(audio_file(&job("k", "audio/x-wav")).name, "k.wav");
    assert_eq!(audio_file(&job("k", "audio/opus")).name, "k.opus");
    assert_eq!(audio_file(&job("k", "")).name, "k.ogg");
    assert_eq!(audio_file(&job("k", "")).shard, "k");
    let f = audio_file(&job("", "audio/ogg"));
    assert_eq!((f.shard.as_str(), f.name.as_str()), ("po", "post-17.ogg"));
}

#[test]
fn extensions_are_those_that_std_finds() {
    for original in [
        "a.b", "a/b.c", "a.b/c", "a.b/", "a.b/.", "a.b/./", "a.b//", "/a.b", "a.b/..", "..", "../",
        ".", "./", "./a.b", "/", "//", "x/.y", "x/..y", "x/y.", "x/...", "a/./b.c", "",
        "12:30 talk.mp3", "12:30", "a: b..c", "x/1:2.d", "a:b.tar.gz", "v1:.x.y",
    ] {
        let expected = match std::path::Path::new(original).extension().and_then(|e| e.to_str()) {
            Some(e) if !e.is_empty() => format!("abc.{e}"),
            _ => "abc".to_string(),
        };
        let info = json(&format!("{{\"name\": \"{original}\"}}"));
        assert_eq!(plan_attachment("abc", &info).file.name, expected, "{original}");
    }
}

#[test]
fn attachments_are_described_without_their_file() {
    let info = json(r#"{"name": "a.txt", "size": "12", "uploader": "u", "uploadtime": 5}"#);
    let told = attachment_info(plan_attachment("A1", &info));
    assert_eq!((told.id.as_str(), told.name.as_str(), told.size), ("A1", "a.txt", 12));
    assert_eq!((told.uploader.as_str(), told.uploadtime), ("u", 5));
    assert_eq!(told.url, "/api/v1/attachments/A1/download");
    let (op, outcome) = description_result("A1", Ok(told));
    assert!(matches!(op, DbOp::AttachmentInfo(i) if i.id == "A1"));
    assert_eq!(outcome, Outcome::Done(0));
    let (op, outcome) = description_result("A1", Err(Failure::Other("x".to_string())));
    assert!(
        matches!(op, DbOp::Error { scope, ref_id, .. } if scope == "attachment" && ref_id == "A1")
    );
    assert_eq!(outcome, Outcome::Failed);
}

#[test]
fn attachments_keep_a_cleaned_extension() {
    let name = |original: &str| {
        let info = json(&format!("{{\"name\": \"{original}\"}}"));
        plan_attachment("abc", &info).file.name
    };
    assert_eq!(name("report.PDF"), "abc.PDF");
    assert_eq!(name("archive.tar.gz"), "abc.gz");
    assert_eq!(name("x.t x-t!"), "abc.txt");
    assert_eq!(name("x.abcdefghijk"), "abc.abcdefgh");
    assert_eq!(name("x.---"), "abc");
    assert_eq!(name("x."), "abc");
    assert_eq!(name(".hidden"), "abc");
    assert_eq!(name("plain"), "abc");
    assert_eq!(name(""), "abc");
    assert_eq!(name(".."), "abc");
    assert_eq!(name("..a"), "abc.a");
    assert_eq!(name("dir.d/file.ogg"), "abc.ogg");
    assert_eq!(name("dir.d/file"), "abc");
    assert_eq!(name("/a/b.c/d.tar.gz"), "abc.gz");
    assert_eq!(name("a.b/"), "abc.b");
    assert_eq!(name("a.b//./"), "abc.b");
    assert_eq!(name("a.b/.."), "abc");
    assert_eq!(name("a.b/.hidden"), "abc");
    assert_eq!(name("/"), "abc");
    assert_eq!(name("./."), "abc");
    assert_eq!(name("12:30 talk.mp3"), "abc.mp3");
    assert_eq!(name("12:30"), "abc");
    assert_eq!(attachment_file("", None).shard, "_");
    assert_eq!(attachment_file("x", Some("é".to_string())).name, "x");
}

#[test]
fn attachments_are_planned_from_what_the_server_tells() {
    let info = json(
        r#"{"name": "a.txt", "size": "12", "uploader": "u", "uploadtime": 5, "url": "https://x/y"}"#,
    );
    let plan = plan_attachment("id/1", &info);
    assert_eq!(plan.url, "https://x/y");
    assert_eq!((plan.file.shard.as_str(), plan.file.name.as_str()), ("id", "id_1.txt"));
    let record = attachment_record(plan, "data/id/id_1.txt".to_string(), 12, "ff".to_string());
    assert_eq!((record.id.as_str(), record.name.as_str()), ("id/1", "a.txt"));
    assert_eq!((record.size, record.uploadtime, record.bytes), (12, 5, 12));
    assert_eq!((record.uploader.as_str(), record.sha.as_str()), ("u", "ff"));
    assert_eq!(record.path, "data/id/id_1.txt");

    let plan = plan_attachment("z", &json("{}"));
    assert_eq!(plan.url, "/api/v1/attachments/z/download");
    assert_eq!(attachment_path("z"), "/api/v1/attachments/z");
}

#[test]
fn files_on_disk_are_adopted_unless_empty() {
    assert_eq!(adopted(true, Some(5)), Some(5));
    assert_eq!(adopted(true, Some(0)), None);
    assert_eq!(adopted(true, None), None);
    assert_eq!(adopted(false, Some(5)), None);
}

#[test]
fn size_caps_are_in_megabytes_and_saturate() {
    assert_eq!(size_cap(64), 67_108_864);
    assert_eq!(size_cap(0), 0);
    assert_eq!(size_cap(u64::MAX), u64::MAX);
}

#[test]
fn a_held_fingerprint_asks_for_a_delta() {
    assert!(catalog_request("").is_empty());
    assert_eq!(
        catalog_request("abc"),
        vec![
            ("ident".to_string(), "abc".to_string()),
            ("increment".to_string(), "1".to_string())
        ]
    );
}

fn held() -> (Vec<Json>, Vec<Json>, Vec<Json>) {
    (
        rows(r#"[{"id": 1, "name": "g"}]"#),
        rows(r#"[{"forumid": 2, "name": "f"}]"#),
        rows(r#"[{"id": 3, "name": "t", "forumid": 2}]"#),
    )
}

fn catalog(ident: &str, data: &str) -> CatalogStep {
    let (g, f, t) = held();
    read_catalog(ident, &json(data), &g, &f, &t)
}

fn done(step: CatalogStep) -> (Structure, CatalogSource) {
    match step {
        CatalogStep::Done(s, source) => (s, source),
        CatalogStep::Refetch => panic!("expected a catalog"),
    }
}

#[test]
fn without_a_fingerprint_the_answer_is_complete() {
    let (s, source) = done(catalog("", r#"{"unchanged": 1, "ident": "n", "groups": [{"id": 9}]}"#));
    assert_eq!(source, CatalogSource::Full);
    assert_eq!((s.groups.len(), s.forums.len(), s.ident.as_str()), (1, 0, "n"));
    assert_eq!(source.text(), "full");
}

#[test]
fn an_unchanged_catalog_is_rebuilt_from_what_is_held() {
    let (s, source) = done(catalog("old", r#"{"unchanged": "1"}"#));
    assert_eq!(source.text(), "unchanged");
    assert_eq!((s.groups[0].id, s.forums[0].id, s.threads[0].id), (1, 2, 3));
    assert_eq!(s.ident, "old");
    let (s, _) = done(catalog("old", r#"{"unchanged": true, "ident": "new"}"#));
    assert_eq!(s.ident, "new");
}

#[test]
fn a_delta_is_merged_into_what_is_held() {
    let (s, source) = done(catalog(
        "old",
        r#"{"incremental": 1, "ident": "new", "groups": [{"ref": "1"}, {"id": 4, "name": "h"}],
            "forums": [{"ref": 2}], "threads": [{"id": 3, "name": "renamed"}]}"#,
    ));
    assert_eq!(source.text(), "incremental");
    assert_eq!((s.groups[0].name.as_str(), s.groups[1].name.as_str()), ("g", "h"));
    assert_eq!((s.forums[0].name.as_str(), s.threads[0].name.as_str()), ("f", "renamed"));
    assert_eq!(s.ident, "new");
    // No stub is left.
    assert_eq!(str_of(&s.forums[0].raw, "ref"), "");
}

#[test]
fn a_delta_with_unknown_rows_is_not_used() {
    let data = r#"{"incremental": 1, "forums": [{"ref": 2}], "threads": [{"ref": 77}]}"#;
    assert!(matches!(catalog("old", data), CatalogStep::Refetch));
    let (s, source) = read_full_catalog(&json(r#"{"forums": [{"forumid": 5}], "ident": "n"}"#));
    assert_eq!(source.text(), "full (cache miss)");
    assert_eq!((s.forums[0].id, s.ident.as_str()), (5, "n"));
}

#[test]
fn without_rows_held_no_delta_is_trusted() {
    let (g, f, t) = held();
    let none: Vec<Json> = Vec::new();
    let stub = json(r#"{"incremental": true, "groups": [], "forums": [{"ref": 1}], "threads": []}"#);
    let unchanged = json(r#"{"unchanged": 1}"#);
    for data in [&stub, &unchanged] {
        assert!(matches!(read_catalog("old", data, &g, &f, &none), CatalogStep::Refetch));
        assert!(matches!(read_catalog("old", data, &g, &none, &t), CatalogStep::Refetch));
        assert!(matches!(read_catalog("old", data, &none, &none, &none), CatalogStep::Refetch));
    }
    // One stub among complete rows is enough, and so is the word that nothing changed.
    for data in [
        r#"{"incremental": 1, "groups": [{"ref": 1}], "forums": [{"forumid": 5}]}"#,
        r#"{"incremental": 1, "forums": [{"forumid": 5}], "threads": [{"id": 6}, {"ref": 3}]}"#,
        r#"{"unchanged": 1, "incremental": 1, "forums": [{"forumid": 5}]}"#,
    ] {
        assert!(matches!(read_catalog("old", &json(data), &g, &f, &none), CatalogStep::Refetch));
    }
    // A complete answer is taken whatever is held.
    let full = json(r#"{"forums": [{"forumid": 5}]}"#);
    let (s, source) = done(read_catalog("old", &full, &none, &none, &none));
    assert_eq!((source, s.forums[0].id), (CatalogSource::Full, 5));
}

#[test]
fn without_rows_held_a_complete_delta_is_the_catalog() {
    let (g, f, t) = held();
    let none: Vec<Json> = Vec::new();
    let data = json(
        r#"{"incremental": 1, "ident": "new", "groups": [{"id": 4}], "forums": [{"forumid": 5}],
            "threads": [{"id": 6, "ref": 3}]}"#,
    );
    for (forums, threads) in [(&none, &none), (&f, &none), (&none, &t)] {
        let (s, source) = done(read_catalog("old", &data, &g, forums, threads));
        assert_eq!(source.text(), "full");
        assert_eq!((s.groups[0].id, s.forums[0].id, s.threads[0].id), (4, 5, 6));
        assert_eq!((s.groups.len(), s.forums.len(), s.threads.len()), (1, 1, 1));
        assert_eq!(s.ident, "new");
    }
    // The fingerprint is the one the answer gives, if any.
    let (s, _) = done(read_catalog("old", &json(r#"{"incremental": 1}"#), &g, &none, &none));
    assert_eq!((s.groups.len(), s.ident.as_str()), (0, ""));
}

#[test]
fn threads_are_read_post_by_post() {
    assert_eq!(thread_path(-5), "/api/v1/forum/-5");
    let posts = thread_posts(&json(r#"{"posts": [{"id": 1}, {"id": 2, "text": "x"}]}"#), 9);
    assert_eq!(posts.len(), 2);
    assert_eq!((posts[1].id, posts[1].thread_id, posts[1].text.as_str()), (2, 9, "x"));
    assert!(thread_posts(&json(r#"{"posts": 3}"#), 9).is_empty());
}

fn threads() -> Structure {
    Structure::from_data(&json(
        r#"{"threads": [
            {"id": 1, "forumid": 10, "last_update": 50},
            {"id": 2, "forumid": 10, "last_update": 90},
            {"id": 3, "forumid": 20, "last_update": 99},
            {"id": 4, "forumid": 10, "last_update": 90},
            {"id": 5, "forumid": 30, "last_update": 70}
        ]}"#,
    ))
}

#[test]
fn moved_threads_are_fetched_newest_first() {
    let s = threads();
    let marks = vec![(1, 50), (2, 89), (5, 71)];
    let plan = plan_threads(&s.threads, &vec![10, 30, 10], &marks, false, true, None);
    assert_eq!(plan.targets, vec![(2, 90), (4, 90)]);
    assert_eq!((plan.outstanding, plan.forums, plan.threads), (2, 2, 4));
    assert_eq!(
        coverage_text(&plan, false),
        "Selection covers 2 forums and 4 threads; 2 need fetching."
    );
}

#[test]
fn an_interrupted_run_continues_where_it_stopped() {
    let never = Watermark { scraped_at: None, scraped_last_update: None };
    let s = threads();
    let mut table: Vec<(i64, Watermark)> = (1..=5).map(|id| (id, never)).collect();

    // The first run gets as far as two of the five threads.
    let ids = vec![10, 20, 30];
    let plan = plan_threads(&s.threads, &ids, &thread_watermarks(&table), false, true, None);
    assert_eq!(plan.targets.len(), 5);
    for (thread_id, last_update) in plan.targets.iter().take(2) {
        let write = post_rows(&Vec::new(), &Vec::new(), &Vec::new(), *last_update, 1000);
        for entry in table.iter_mut() {
            if entry.0 == *thread_id {
                entry.1 = write.mark;
            }
        }
    }

    // The next run refreshes the catalog first.
    let rows = catalog_rows(&s, &table, 2000);
    let mark = |c: &Cell| match c {
        Cell::Int(n) => Some(*n),
        _ => None,
    };
    let refreshed: Vec<(i64, Watermark)> = rows
        .threads
        .iter()
        .map(|row| {
            let id = mark(&row[0]).unwrap();
            (id, Watermark { scraped_at: mark(&row[10]), scraped_last_update: mark(&row[11]) })
        })
        .collect();
    let plan = plan_threads(&s.threads, &ids, &thread_watermarks(&refreshed), false, true, None);
    assert_eq!(plan.targets, vec![(4, 90), (5, 70), (1, 50)]);
}

#[test]
fn a_full_run_ignores_the_watermarks() {
    let s = threads();
    let marks = vec![(1, 50), (2, 90), (4, 90), (5, 71)];
    let plan = plan_threads(&s.threads, &vec![10, 30], &marks, true, true, None);
    assert_eq!(plan.targets, vec![(2, 90), (4, 90), (5, 70), (1, 50)]);
    let same = plan_threads(&s.threads, &vec![10, 30], &marks, false, false, None);
    assert_eq!(same.targets, plan.targets);
    let none = plan_threads(&s.threads, &vec![10, 30], &marks, false, true, None);
    assert!(none.targets.is_empty());
}

#[test]
fn a_limit_caps_the_run_but_not_the_count() {
    let s = threads();
    let plan = plan_threads(&s.threads, &vec![10, 20, 30], &Vec::new(), true, true, Some(2));
    assert_eq!(plan.targets, vec![(3, 99), (2, 90)]);
    assert_eq!(plan.outstanding, 5);
    assert_eq!(
        coverage_text(&plan, true),
        "Selection covers 3 forums and 5 threads; 5 need fetching (full re-scrape), capped at 2 by --limit."
    );
    let plan = plan_threads(&s.threads, &vec![10], &Vec::new(), false, true, Some(9));
    assert_eq!(plan.targets.len(), 3);
}

#[test]
fn results_of_threads_are_written_and_counted() {
    let posts = thread_posts(&json(r#"{"posts": [{"id": 1}, {"id": 2}]}"#), 9);
    let (op, outcome, stop) = thread_result(9, 77, Ok(posts), true);
    assert!(matches!(op, DbOp::Posts { thread_id: 9, last_update: 77, posts } if posts.len() == 2));
    assert_eq!((outcome, stop), (Outcome::Done(2), false));

    let (op, outcome, stop) = thread_result(9, 77, Err(Failure::Other("boom".to_string())), true);
    match op {
        DbOp::Error { scope, ref_id, message } => {
            assert_eq!((scope.as_str(), ref_id.as_str(), message.as_str()), ("thread", "9", "boom"))
        }
        other => panic!("{other:?}"),
    }
    assert_eq!((outcome, stop), (Outcome::Failed, true));
    let (_, _, stop) = thread_result(9, 77, Err(Failure::Other("boom".to_string())), false);
    assert!(!stop);
}

#[test]
fn results_of_recordings_are_written_and_counted() {
    let (op, outcome) = audio_adoption(5, "p".to_string(), 10);
    assert!(
        matches!(op, DbOp::Audio { post_id: 5, path, bytes: 10, sha } if path == "p" && sha.is_empty())
    );
    assert_eq!(outcome, Outcome::Done(0));
    let (op, outcome) = audio_result(5, "p".to_string(), Ok((10, "ab".to_string())));
    assert!(matches!(op, DbOp::Audio { post_id: 5, bytes: 10, sha, .. } if sha == "ab"));
    assert_eq!(outcome, Outcome::Done(10));
    let (op, outcome) = audio_result(5, "p".to_string(), Err(Failure::Other("x".to_string())));
    assert!(matches!(op, DbOp::Error { scope, ref_id, .. } if scope == "audio" && ref_id == "5"));
    assert_eq!(outcome, Outcome::Failed);
}

#[test]
fn results_of_attachments_are_written_and_counted() {
    let plan = plan_attachment("z", &json("{}"));
    let record = attachment_record(plan, "p".to_string(), 7, String::new());
    let (op, outcome) = attachment_result("z", Ok(record));
    assert!(matches!(op, DbOp::Attachment(r) if r.id == "z" && r.bytes == 7));
    assert_eq!(outcome, Outcome::Done(7));
    let (op, outcome) = attachment_result("z", Err(Failure::Other("x".to_string())));
    assert!(
        matches!(op, DbOp::Error { scope, ref_id, .. } if scope == "attachment" && ref_id == "z")
    );
    assert_eq!(outcome, Outcome::Failed);
}

#[test]
fn tallies_leave_out_what_was_not_started() {
    let t = tally(&vec![
        Some(Outcome::Done(3)),
        None,
        Some(Outcome::Failed),
        Some(Outcome::Done(u64::MAX)),
        Some(Outcome::Done(u64::MAX)),
    ]);
    assert_eq!((t.done, t.failed), (3, 1));
    assert_eq!(t.amount, 2 * (u64::MAX as u128) + 3);
    assert_eq!(tally(&Vec::new()).done, 0);
}

#[test]
fn phases_follow_the_settings() {
    assert_eq!(audio_phase(true, false, false), AudioPhase::Run);
    assert_eq!(audio_phase(true, true, false), AudioPhase::Off);
    assert_eq!(audio_phase(false, false, true), AudioPhase::Off);
    assert_eq!(audio_phase(true, false, true), AudioPhase::Skip);
    assert_eq!(attachment_phase(true, false), AttachmentPhase::Download);
    assert_eq!(attachment_phase(false, false), AttachmentPhase::Describe);
    assert_eq!(attachment_phase(true, true), AttachmentPhase::Skip);
    assert_eq!(attachment_phase(false, true), AttachmentPhase::Skip);
}

#[test]
fn runs_are_noted() {
    assert_eq!(
        run_notes(false, CatalogSource::FullAfterMiss, 12),
        "completed; catalog=full (cache miss); attachments=12"
    );
    assert_eq!(
        run_notes(true, CatalogSource::Incremental, 0),
        "interrupted; catalog=incremental; attachments=0"
    );
}
