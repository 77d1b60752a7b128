use djdb::commands::{
    add_set, last_played, merge_performer, new_performer, rename_performer, stale, AddSetArgs,
    NewPerformerArgs,
};
use djdb::data::{Dataset, DatasetError};
use djdb::date::Date;
use djdb::import::make_date;
use djdb::performer::{Performer, PerformerError, Performers};
use djdb::show::{default_duration, Show, ShowError, ShowSet, WallTime};

fn date(y: i32, m: u32, d: u32) -> Date {
    make_date(y, m, d).unwrap()
}

fn performer(name: &str) -> Performer {
    Performer {
        display_name: name.to_string(),
        aliases: vec![],
        notes: String::new(),
        twitch: String::new(),
        cdn: String::new(),
    }
}

/// The performers of the fixture, in slug order.
fn setup() -> Performers {
    Performers(vec![
        ("aliquem".to_string(), performer("Aliquem")),
        ("kohada".to_string(), performer("Kohada")),
        ("turels".to_string(), performer("Turels")),
    ])
}

fn set_at(hour: u8, minute: u8, dj: &str) -> ShowSet {
    ShowSet {
        start: WallTime { hour, minute },
        duration_min: default_duration(),
        dj: Some(dj.to_string()),
        vj: None,
        notes: String::new(),
    }
}

fn show_with_set(d: Date, hour: u8, dj: &str) -> (String, Show) {
    (format!("shows/{:04}-{:02}-{:02}.toml", d.year(), d.month(), d.day()), Show { date: d, sets: vec![set_at(hour, 0, dj)] })
}

fn dataset(shows: Vec<(String, Show)>) -> Dataset {
    Dataset::from_parts(setup(), shows).unwrap()
}

fn args<'a>(d: Date, hour: u8, dj: &'a str) -> AddSetArgs<'a> {
    AddSetArgs {
        date: d,
        start: WallTime { hour, minute: 0 },
        dj: Some(dj),
        vj: None,
        duration_min: 60,
        notes: "",
    }
}

#[test]
fn add_set_creates_new_show_file() {
    let perfs = setup();
    let show = add_set(&perfs, None, args(date(2026, 5, 9), 21, "aliquem")).unwrap();
    // Validates end-to-end.
    let ds = Dataset::from_parts(setup(), vec![("shows/2026-05-09.toml".to_string(), show)]).unwrap();
    assert_eq!(ds.shows.len(), 1);
    assert_eq!(ds.shows[0].sets.len(), 1);
}

#[test]
fn add_set_appends_and_sorts() {
    let perfs = setup();
    let (_, existing) = show_with_set(date(2026, 5, 9), 22, "kohada");
    let show = add_set(&perfs, Some(existing), args(date(2026, 5, 9), 21, "aliquem")).unwrap();
    assert_eq!(show.sets.len(), 2);
    assert_eq!(show.sets[0].start.hour, 21);
    assert_eq!(show.sets[1].start.hour, 22);
}

#[test]
fn add_set_rejects_unknown_slug() {
    let perfs = setup();
    let err = add_set(&perfs, None, args(date(2026, 5, 9), 21, "ghost")).unwrap_err();
    assert!(err.message().contains("ghost"));
}

#[test]
fn add_set_rejects_time_collision() {
    let perfs = setup();
    let (_, existing) = show_with_set(date(2026, 5, 9), 21, "kohada");
    let err = add_set(&perfs, Some(existing), args(date(2026, 5, 9), 21, "aliquem")).unwrap_err();
    assert!(err.message().contains("already has a set"));
}

#[test]
fn add_set_requires_a_performer() {
    let perfs = setup();
    let mut a = args(date(2026, 5, 9), 21, "aliquem");
    a.dj = None;
    let err = add_set(&perfs, None, a).unwrap_err();
    assert_eq!(err.message(), "add-set requires at least one of --dj or --vj");
}

#[test]
fn new_performer_creates_entry() {
    let mut perfs = setup();
    new_performer(
        &mut perfs,
        NewPerformerArgs {
            slug: "pizza_princess",
            display_name: "Pizza Princess",
            twitch: "https://twitch.tv/pp",
            cdn: "",
            notes: "",
            aliases: vec![],
        },
    )
    .unwrap();
    let pp = perfs.get("pizza_princess").unwrap();
    assert_eq!(pp.display_name, "Pizza Princess");
    assert_eq!(pp.twitch, "https://twitch.tv/pp");
}

#[test]
fn new_performer_rejects_existing() {
    let mut perfs = setup();
    let err = new_performer(
        &mut perfs,
        NewPerformerArgs {
            slug: "aliquem",
            display_name: "Aliquem",
            twitch: "",
            cdn: "",
            notes: "",
            aliases: vec![],
        },
    )
    .unwrap_err();
    assert!(err.message().contains("already exists"));
}

#[test]
fn new_performer_rejects_bad_slug() {
    let mut perfs = setup();
    let err = new_performer(
        &mut perfs,
        NewPerformerArgs {
            slug: "Pizza Princess",
            display_name: "Pizza Princess",
            twitch: "",
            cdn: "",
            notes: "",
            aliases: vec![],
        },
    )
    .unwrap_err();
    assert!(err.message().contains("invalid slug"));
}

#[test]
fn new_performer_then_contains() {
    let mut perfs = setup();
    assert!(!perfs.contains("zed"));
    new_performer(
        &mut perfs,
        NewPerformerArgs {
            slug: "zed",
            display_name: "  Zed  ",
            twitch: "",
            cdn: "",
            notes: "",
            aliases: vec![],
        },
    )
    .unwrap();
    assert!(perfs.contains("zed"));
    assert_eq!(perfs.get("zed").unwrap().display_name, "Zed");
    assert_eq!(perfs.len(), 4);
    assert!(perfs.validate().is_ok());
}

#[test]
fn rename_performer_updates_shows() {
    let ds = dataset(vec![
        show_with_set(date(2026, 5, 9), 21, "aliquem"),
        show_with_set(date(2026, 5, 16), 22, "aliquem"),
    ]);
    let w = rename_performer(ds, "aliquem", "ali").unwrap();
    assert!(w.performers.contains("ali"));
    assert!(!w.performers.contains("aliquem"));
    assert_eq!(w.rewritten.len(), 2);
    for show in &w.rewritten {
        for set in &show.sets {
            assert_ne!(set.dj.as_deref(), Some("aliquem"));
            assert_eq!(set.dj.as_deref(), Some("ali"));
        }
    }
}

#[test]
fn rename_performer_rejects_target_exists() {
    let ds = dataset(vec![]);
    let err = rename_performer(ds, "aliquem", "kohada").unwrap_err();
    assert!(err.message().contains("already exists"));
    // The performers are left as they were.
    let ds = dataset(vec![]);
    assert!(ds.performers.contains("aliquem"));
}

#[test]
fn merge_performer_folds_aliases_and_rewrites() {
    let ds = dataset(vec![show_with_set(date(2026, 5, 9), 21, "turels")]);
    let w = merge_performer(ds, "turels", "aliquem").unwrap();
    assert!(!w.performers.contains("turels"));
    let ali = w.performers.get("aliquem").unwrap();
    assert!(ali.aliases.iter().any(|a| a == "Turels"));
    for show in &w.rewritten {
        for set in &show.sets {
            assert_ne!(set.dj.as_deref(), Some("turels"));
        }
    }
}

#[test]
fn last_played_returns_latest() {
    let ds = dataset(vec![
        show_with_set(date(2026, 5, 9), 21, "aliquem"),
        show_with_set(date(2026, 5, 16), 21, "aliquem"),
        show_with_set(date(2026, 5, 2), 21, "aliquem"),
    ]);
    let d = last_played(&ds, "aliquem").unwrap();
    assert_eq!(d, Some(date(2026, 5, 16)));
}

#[test]
fn last_played_never() {
    let ds = dataset(vec![show_with_set(date(2026, 5, 9), 21, "aliquem")]);
    let d = last_played(&ds, "kohada").unwrap();
    assert_eq!(d, None);
}

#[test]
fn last_played_unknown_slug() {
    let ds = dataset(vec![]);
    let err = last_played(&ds, "ghost").unwrap_err();
    assert_eq!(err.message(), "performer \"ghost\" not found");
}

#[test]
fn stale_lists_never_and_old() {
    // aliquem played recently, kohada played long ago, turels never.
    let ds = dataset(vec![
        show_with_set(date(2026, 5, 1), 21, "aliquem"),
        show_with_set(date(2025, 1, 1), 21, "kohada"),
    ]);
    let out = stale(&ds, 60, date(2026, 5, 9)).unwrap();
    // Never-played comes first, then kohada, aliquem excluded.
    let slugs: Vec<&str> = out.iter().map(|(s, _)| s.as_str()).collect();
    assert_eq!(slugs, vec!["turels", "kohada"]);
    assert_eq!(out[0].1, None);
    assert_eq!(out[1].1, Some(date(2025, 1, 1)));
}

#[test]
fn loads_valid_dataset() {
    let perfs = Performers(vec![
        ("aliquem".to_string(), performer("Aliquem")),
        ("kohada".to_string(), performer("Kohada")),
    ]);
    let show = Show { date: date(2025, 3, 28), sets: vec![set_at(20, 0, "aliquem"), set_at(21, 0, "kohada")] };
    let ds = Dataset::from_parts(perfs, vec![("shows/2025-03-28.toml".to_string(), show)]).unwrap();
    assert_eq!(ds.performers.0.len(), 2);
    assert_eq!(ds.shows.len(), 1);
}

#[test]
fn rejects_unknown_performer() {
    let perfs = Performers(vec![("aliquem".to_string(), performer("Aliquem"))]);
    let show = Show { date: date(2025, 3, 28), sets: vec![set_at(20, 0, "ghost")] };
    let err = Dataset::from_parts(perfs, vec![("shows/2025-03-28.toml".to_string(), show)]).unwrap_err();
    assert!(matches!(err, DatasetError::UnknownPerformer { .. }));
    assert_eq!(
        err.message(),
        "show 2025-03-28 references unknown performer slug \"ghost\" (set at 20:00)"
    );
}

#[test]
fn rejects_filename_mismatch() {
    let show = Show { date: date(2025, 4, 1), sets: vec![set_at(20, 0, "aliquem")] };
    let err = Show::check_file("shows/2025-03-28.toml", Some("2025-03-28"), show)
        .map_err(DatasetError::Show)
        .unwrap_err();
    assert!(matches!(err, DatasetError::Show(ShowError::DateFilenameMismatch { .. })));
}

#[test]
fn missing_shows_dir_is_ok() {
    let perfs = Performers(vec![("aliquem".to_string(), performer("Aliquem"))]);
    let ds = Dataset::from_parts(perfs, vec![]).unwrap();
    assert_eq!(ds.shows.len(), 0);
}

#[test]
fn rejects_duplicate_dates_and_sorts_shows() {
    let perfs = setup();
    let a = show_with_set(date(2025, 3, 28), 20, "aliquem");
    let b = show_with_set(date(2025, 1, 2), 20, "kohada");
    let ds = Dataset::from_parts(perfs, vec![a, b]).unwrap();
    assert_eq!(ds.shows[0].date, date(2025, 1, 2));
    assert_eq!(ds.shows[1].date, date(2025, 3, 28));
    let perfs = setup();
    let a = show_with_set(date(2025, 3, 28), 20, "aliquem");
    let b = ("other.toml".to_string(), Show { date: date(2025, 3, 28), sets: vec![set_at(21, 0, "kohada")] });
    let err = Dataset::from_parts(perfs, vec![a, b]).unwrap_err();
    assert!(matches!(err, DatasetError::DuplicateShow { .. }));
}

#[test]
fn parse_performers() {
    let p = Performers(vec![
        (
            "goblin_mode".to_string(),
            Performer {
                display_name: "Goblin mode".to_string(),
                aliases: vec!["GoblinMode".to_string()],
                notes: "host".to_string(),
                twitch: "https://twitch.tv/goblin".to_string(),
                cdn: String::new(),
            },
        ),
        ("pizza_princess".to_string(), performer("Pizza Princess")),
    ]);
    p.validate().unwrap();
    assert_eq!(p.0.len(), 2);
    assert_eq!(p.get("goblin_mode").unwrap().aliases, vec!["GoblinMode"]);
}

#[test]
fn rejects_invalid_slug() {
    let p = Performers(vec![("Pizza".to_string(), performer("Pizza"))]);
    assert!(matches!(p.validate(), Err(PerformerError::InvalidSlug { .. })));
}

#[test]
fn rejects_empty_display_name() {
    let p = Performers(vec![("pizza".to_string(), performer(""))]);
    assert!(matches!(p.validate(), Err(PerformerError::EmptyDisplayName { .. })));
}

#[test]
fn parse_show() {
    let mut third = set_at(22, 0, "turels");
    third.duration_min = 90;
    third.vj = Some("some_vj".to_string());
    let mut first = set_at(20, 0, "aliquem");
    first.notes = "takeover".to_string();
    let s = Show { date: date(2025, 3, 28), sets: vec![first, set_at(21, 0, "kohada"), third] };
    assert_eq!(s.sets.len(), 3);
    assert_eq!(s.sets[0].duration_min, 60);
    assert_eq!(s.sets[2].duration_min, 90);
    s.validate_shape().unwrap();
}

#[test]
fn empty_set_rejected() {
    let s = Show {
        date: date(2025, 3, 28),
        sets: vec![ShowSet {
            start: WallTime { hour: 20, minute: 0 },
            duration_min: default_duration(),
            dj: None,
            vj: None,
            notes: String::new(),
        }],
    };
    let err = s.validate_shape().unwrap_err();
    assert!(matches!(err, ShowError::EmptySet { .. }));
    assert_eq!(err.message(), "show 2025-03-28: set at 20:00 has neither dj nor vj");
}

#[test]
fn empty_lineup_rejected() {
    let s = Show { date: date(2025, 3, 28), sets: vec![] };
    assert!(matches!(s.validate_shape(), Err(ShowError::EmptyLineup { .. })));
}

#[test]
fn rename_then_check_passes() {
    let ds = dataset(vec![
        show_with_set(date(2026, 5, 9), 21, "aliquem"),
        show_with_set(date(2026, 5, 16), 22, "kohada"),
    ]);
    let w = rename_performer(ds, "aliquem", "ali").unwrap();
    assert_eq!(w.rewritten.len(), 1);
    // Written back: the rewritten show replaces the file for its date.
    let mut shows = vec![show_with_set(date(2026, 5, 16), 22, "kohada")];
    for s in w.rewritten {
        shows.push(("shows/2026-05-09.toml".to_string(), s));
    }
    let checked = Dataset::from_parts(w.performers, shows).unwrap();
    assert_eq!(checked.shows.len(), 2);
    assert!(checked.performers.validate().is_ok());
}

#[test]
fn merge_then_check_passes() {
    let ds = dataset(vec![show_with_set(date(2026, 5, 9), 21, "turels")]);
    let w = merge_performer(ds, "turels", "kohada").unwrap();
    let shows: Vec<(String, Show)> =
        w.rewritten.into_iter().map(|s| ("shows/2026-05-09.toml".to_string(), s)).collect();
    let checked = Dataset::from_parts(w.performers, shows).unwrap();
    assert_eq!(checked.shows[0].sets[0].dj.as_deref(), Some("kohada"));
    assert_eq!(checked.performers.len(), 2);
}

#[test]
fn stale_orders_oldest_first_after_never_played() {
    // kohada last played before aliquem; turels never did.
    let ds = dataset(vec![
        show_with_set(date(2024, 11, 2), 21, "kohada"),
        show_with_set(date(2025, 3, 7), 21, "aliquem"),
    ]);
    let out = stale(&ds, 30, date(2026, 5, 9)).unwrap();
    let slugs: Vec<&str> = out.iter().map(|(s, _)| s.as_str()).collect();
    assert_eq!(slugs, vec!["turels", "kohada", "aliquem"]);
    assert_eq!(out[1].1, Some(date(2024, 11, 2)));
    assert_eq!(out[2].1, Some(date(2025, 3, 7)));
}

#[test]
fn table_reads_back_what_was_written() {
    let mut p = setup();
    assert!(p.insert("dj_new".to_string(), performer("New")).is_none());
    assert_eq!(p.get("dj_new").unwrap().display_name, "New");
    let old = p.insert("kohada".to_string(), performer("Kohada II")).unwrap();
    assert_eq!(old.display_name, "Kohada");
    assert_eq!(p.get("kohada").unwrap().display_name, "Kohada II");
    assert_eq!(p.len(), 4);
    let keys: Vec<&str> = p.0.iter().map(|(k, _)| k.as_str()).collect();
    assert_eq!(keys, vec!["aliquem", "dj_new", "kohada", "turels"]);
    assert_eq!(p.remove("aliquem").unwrap().display_name, "Aliquem");
    assert!(!p.contains("aliquem") && p.get("aliquem").is_none());
    assert!(p.remove("aliquem").is_none());
    assert_eq!(p.len(), 3);
}

#[test]
fn stale_orders_by_date_beyond_four_digit_years() {
    let ds = dataset(vec![
        show_with_set(date(10000, 1, 1), 21, "kohada"),
        show_with_set(date(9999, 1, 1), 21, "aliquem"),
    ]);
    let out = stale(&ds, 30, date(10001, 3, 1)).unwrap();
    let slugs: Vec<&str> = out.iter().map(|(s, _)| s.as_str()).collect();
    assert_eq!(slugs, vec!["turels", "aliquem", "kohada"]);
}

#[test]
fn from_parts_checks_performers_and_shapes() {
    let bad_table = Performers(vec![("Bad".to_string(), performer("Bad"))]);
    let err = Dataset::from_parts(bad_table, vec![]).unwrap_err();
    assert!(matches!(err, DatasetError::Performer(PerformerError::InvalidSlug { .. })));
    let empty = ("shows/2025-01-01.toml".to_string(), Show { date: date(2025, 1, 1), sets: vec![] });
    let err = Dataset::from_parts(setup(), vec![show_with_set(date(2025, 2, 1), 21, "kohada"), empty]).unwrap_err();
    assert!(matches!(err, DatasetError::Show(ShowError::EmptyLineup { .. })));
}

#[test]
fn check_file_date_takes_the_parsed_stem() {
    let show = Show { date: date(2025, 4, 1), sets: vec![set_at(20, 0, "aliquem")] };
    assert!(Show::check_file_date("shows/2025-04-01.toml", Some(date(2025, 4, 1)), show.clone()).is_ok());
    let err = Show::check_file_date("shows/x.toml", None, show).unwrap_err();
    assert!(matches!(err, ShowError::BadFilename { .. }));
}
