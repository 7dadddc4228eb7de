use elten_scraper::config::{Config, Selection};
use elten_scraper::json::Json;
use elten_scraper::model::Structure;
use elten_scraper::select::{
    forum_line, group_line, matching_forums, matching_groups, menu_line, menu_mode, no_match,
    normalise_filter, parse_choice, parse_indices, picked_forums, picked_groups, read_answer,
    resolve_forums, select, summarise, total_posts, Answer, Mode,
};

fn catalog() -> Structure {
    let text = r#"{
        "ident": "abc",
        "groups": [
            {"id": 1, "name": "Elten Polska", "lang": "pl", "public": true, "forums": 2, "posts": 10},
            {"id": 2, "name": "English", "lang": "en", "public": "1", "forums": 1, "posts": 30},
            {"id": 3, "name": "Quiet", "lang": "", "public": 0, "forums": 0, "posts": 10}
        ],
        "forums": [
            {"forumid": 11, "id": "PL_A", "name": "Rozmowy", "group_id": 1, "threads": 2, "posts": 6},
            {"forumid": 12, "id": "PL_B", "name": "Technika", "group_id": 1, "threads": 1, "posts": 4},
            {"forumid": 21, "id": "EN_A", "name": "Talk", "group_id": 2, "threads": 3, "posts": 30},
            {"forumid": 91, "id": "X", "name": "Orphan", "group_id": 9, "threads": 0, "posts": 0}
        ],
        "threads": [
            {"id": 100, "name": "a", "author": "x", "forumid": 11, "last_update": 5},
            {"id": 101, "name": "b", "author": "x", "forumid": 11, "last_update": 6},
            {"id": 102, "name": "c", "author": "x", "forumid": 12, "last_update": 7},
            {"id": 103, "name": "d", "author": "x", "forumid": 21, "last_update": 8}
        ]
    }"#;
    Structure::from_data(&Json::parse(text).unwrap())
}

fn with_selection(mode: &str, groups: Vec<i64>, forums: Vec<i64>) -> Config {
    let mut cfg = Config::default();
    cfg.selection = Selection { mode: mode.to_string(), groups, forums };
    cfg
}

#[test]
fn parses_lists_ranges_and_all() {
    assert_eq!(parse_indices("1,3", 5).unwrap(), vec![0, 2]);
    assert_eq!(parse_indices("2-4", 5).unwrap(), vec![1, 2, 3]);
    assert_eq!(parse_indices("all", 3).unwrap(), vec![0, 1, 2]);
    assert_eq!(parse_indices("", 3).unwrap(), Vec::<usize>::new());
    // Overlapping entries collapse rather than duplicating work.
    assert_eq!(parse_indices("1,1-2", 5).unwrap(), vec![0, 1]);
}

#[test]
fn rejects_out_of_range_and_garbage() {
    assert!(parse_indices("0", 5).is_err());
    assert!(parse_indices("6", 5).is_err());
    assert!(parse_indices("4-2", 5).is_err());
    assert!(parse_indices("x", 5).is_err());
}

#[test]
fn lists_are_read_leniently_and_come_out_in_order() {
    assert_eq!(parse_indices("  ALL ", 2).unwrap(), vec![0, 1]);
    assert_eq!(parse_indices(" 5 , 1 - 2 ,, 4-4 ", 5).unwrap(), vec![0, 1, 3, 4]);
    assert_eq!(parse_indices("+2", 5).unwrap(), vec![1]);
    assert_eq!(parse_indices(",", 5).unwrap(), Vec::<usize>::new());
    assert_eq!(parse_indices("all", 0).unwrap(), Vec::<usize>::new());
}

#[test]
fn joined_lists_select_the_union() {
    let max = 9;
    for (a, b) in [("1,3", "2-4"), ("", "5"), (" 7 ", " 1-2 , 7"), (",", "")] {
        let mut union = parse_indices(a, max).unwrap();
        union.extend(parse_indices(b, max).unwrap());
        union.sort();
        union.dedup();
        assert_eq!(parse_indices(&format!("{a},{b}"), max).unwrap(), union);
        assert_eq!(parse_indices(&format!("{b},{a}"), max).unwrap(), union);
    }
    assert!(parse_indices("1,x", max).is_err());
    assert!(parse_indices("x,1", max).is_err());
}

#[test]
fn faulty_lists_are_explained() {
    let text = |input: &str| parse_indices(input, 5).unwrap_err().text();
    assert_eq!(text("x"), "could not read \"x\" as a number or range");
    assert_eq!(text("1,a\"b"), "could not read \"a\\\"b\" as a number or range");
    assert_eq!(text("1-x"), "could not read \"1-x\" as a number or range");
    assert_eq!(text("-3"), "could not read \"-3\" as a number or range");
    assert_eq!(text(" 07 "), "7 is out of the range 1-5");
    assert_eq!(text("4-2"), "4-2 is out of the range 1-5");
    assert_eq!(text("0-2"), "0-2 is out of the range 1-5");
    // The first fault is the one reported.
    assert_eq!(text("9,x"), "9 is out of the range 1-5");
    assert_eq!(
        text("18446744073709551616"),
        "could not read \"18446744073709551616\" as a number or range"
    );
}

#[test]
fn answers_are_repeated_until_something_is_picked() {
    assert!(matches!(read_answer("2", 3), Answer::Picked(v) if v == vec![1]));
    match read_answer("  ", 3) {
        Answer::Retry(text) => {
            assert_eq!(text, "Nothing selected - enter numbers such as 1,3,5-8 or 'all'.")
        }
        Answer::Picked(_) => panic!("nothing was typed"),
    }
    match read_answer("4", 3) {
        Answer::Retry(text) => assert_eq!(text, "4 is out of the range 1-3"),
        Answer::Picked(_) => panic!("out of range"),
    }
}

#[test]
fn menus_count_from_one() {
    assert_eq!(menu_line(0, "Everything visible"), "  1. Everything visible");
    assert_eq!(parse_choice(" 1 ", 4), Some(0));
    assert_eq!(parse_choice("4", 4), Some(3));
    assert_eq!(parse_choice("0", 4), None);
    assert_eq!(parse_choice("5", 4), None);
    assert_eq!(parse_choice("one", 4), None);
}

#[test]
fn filters_ignore_case_and_space() {
    assert_eq!(normalise_filter("  PoLSka "), "polska");
    assert_eq!(normalise_filter("ŁÓDŹ"), "łódź");
}

#[test]
fn groups_are_found_by_name_or_language_most_active_first() {
    let s = catalog();
    // Equally active groups stay in catalog order.
    assert_eq!(matching_groups(&s.groups, ""), vec![1, 0, 2]);
    assert_eq!(matching_groups(&s.groups, "polska"), vec![0]);
    assert_eq!(matching_groups(&s.groups, "en"), vec![1, 0]);
    assert_eq!(matching_groups(&s.groups, "pl"), vec![0]);
    assert_eq!(matching_groups(&s.groups, "zzz"), Vec::<usize>::new());
    assert_eq!(no_match("groups", "zzz"), "no groups matched \"zzz\"");
}

#[test]
fn forums_are_found_by_their_own_or_their_groups_name() {
    let s = catalog();
    assert_eq!(matching_forums(&s.forums, &s.groups, ""), vec![2, 0, 1, 3]);
    assert_eq!(matching_forums(&s.forums, &s.groups, "technika"), vec![1]);
    assert_eq!(matching_forums(&s.forums, &s.groups, "elten"), vec![0, 1]);
    assert_eq!(matching_forums(&s.forums, &s.groups, "zzz"), Vec::<usize>::new());
}

#[test]
fn listings_read_aloud() {
    let s = catalog();
    assert_eq!(group_line(0, &s.groups[1]), "  1. English [en] - 1 forums, 30 posts");
    assert_eq!(group_line(2, &s.groups[2]), "  3. Quiet [??] - 0 forums, 10 posts (private)");
    assert_eq!(
        forum_line(0, &s.forums[2], &s.groups),
        "  1. Talk - 3 threads, 30 posts (group: English)"
    );
    assert_eq!(
        forum_line(3, &s.forums[3], &s.groups),
        "  4. Orphan - 0 threads, 0 posts (group: unknown)"
    );
}

#[test]
fn picked_lines_become_ids() {
    let s = catalog();
    let listing = matching_groups(&s.groups, "");
    assert_eq!(picked_groups(&s.groups, &listing, &vec![0, 2]), vec![2, 3]);
    let listing = matching_forums(&s.forums, &s.groups, "");
    assert_eq!(picked_forums(&s.forums, &listing, &vec![0, 1]), vec![21, 11]);
}

#[test]
fn a_mode_replaces_the_earlier_selection() {
    let s = select(menu_mode(0), vec![7]);
    assert_eq!((s.mode.as_str(), s.groups.len(), s.forums.len()), ("all", 0, 0));
    let s = select(menu_mode(1), vec![7]);
    assert_eq!((s.mode.as_str(), s.groups, s.forums.len()), ("groups", vec![7], 0));
    let s = select(menu_mode(2), vec![7]);
    assert_eq!((s.mode.as_str(), s.groups.len(), s.forums), ("forums", 0, vec![7]));
    let s = select(menu_mode(3), vec![7]);
    assert_eq!((s.mode.as_str(), s.groups.len(), s.forums), ("exclude", 0, vec![7]));
    assert_eq!(menu_mode(3), Mode::Exclude);
}

#[test]
fn selections_resolve_to_forums() {
    let s = catalog();
    let ids = |mode: &str, groups: Vec<i64>, forums: Vec<i64>| {
        resolve_forums(&with_selection(mode, groups, forums), &s)
    };
    assert_eq!(ids("all", vec![], vec![]), vec![11, 12, 21, 91]);
    assert_eq!(ids("groups", vec![1, 9], vec![]), vec![11, 12, 91]);
    assert_eq!(ids("forums", vec![1], vec![21, 12]), vec![12, 21]);
    assert_eq!(ids("exclude", vec![1], vec![21, 12]), vec![11, 91]);
}

#[test]
fn excluding_is_the_complement_of_selecting() {
    let s = catalog();
    let picked = resolve_forums(&with_selection("forums", vec![], vec![11, 91]), &s);
    let left = resolve_forums(&with_selection("exclude", vec![], vec![11, 91]), &s);
    assert_eq!(picked, vec![11, 91]);
    assert_eq!(left, vec![12, 21]);
}

#[test]
fn selections_are_summed_up() {
    let s = catalog();
    assert_eq!(total_posts(&s), 40);
    let t = summarise(&with_selection("groups", vec![1], vec![]), &s);
    assert_eq!((t.forums, t.threads, t.posts), (2, 3, 10));
    let t = summarise(&Config::default(), &s);
    assert_eq!((t.forums, t.threads, t.posts), (4, 4, 40));
}
