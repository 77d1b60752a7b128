use djdb::data::Dataset;
use djdb::date::Date;
use djdb::editor::{
    appearance_history, build_show_from_draft, draft_is_dirty, last_played_search, load_show_draft,
    new_performer_form, new_show_draft, new_show_draft_on, non_empty, show_list_lowered, performer_list, show_list, slug_status, apply_performer_draft,
    DraftError, PerformerDraft, SetDraft, ShowDraft, SlugStatus,
};
use djdb::import::make_date;
use djdb::performer::{Performer, Performers};
use djdb::show::{default_duration, Show, ShowSet, WallTime};

fn date(y: i32, m: u32, d: u32) -> Date {
    make_date(y, m, d).unwrap()
}

fn performer(name: &str, aliases: &[&str]) -> Performer {
    Performer {
        display_name: name.to_string(),
        aliases: aliases.iter().map(|a| a.to_string()).collect(),
        notes: String::new(),
        twitch: String::new(),
        cdn: String::new(),
    }
}

fn table() -> Performers {
    Performers(vec![
        ("aliquem".to_string(), performer("Aliquem", &["Ali Q"])),
        ("kohada".to_string(), performer("Kohada", &[])),
        ("turels".to_string(), performer("TURELS", &[])),
    ])
}

fn set(hour: u8, dj: Option<&str>, vj: Option<&str>) -> ShowSet {
    ShowSet {
        start: WallTime { hour, minute: 0 },
        duration_min: default_duration(),
        dj: dj.map(|s| s.to_string()),
        vj: vj.map(|s| s.to_string()),
        notes: String::new(),
    }
}

fn dataset() -> Dataset {
    let shows = vec![
        ("a".to_string(), Show { date: date(2025, 3, 28), sets: vec![set(21, Some("aliquem"), None), set(20, Some("kohada"), Some("aliquem"))] }),
        ("b".to_string(), Show { date: date(2025, 4, 4), sets: vec![set(21, Some("kohada"), None)] }),
    ];
    Dataset::from_parts(table(), shows).unwrap()
}

fn row(time: &str, duration: &str, dj: &str, vj: &str) -> SetDraft {
    SetDraft {
        time: time.to_string(),
        duration: duration.to_string(),
        dj: dj.to_string(),
        vj: vj.to_string(),
        notes: String::new(),
        mark_delete: false,
    }
}

#[test]
fn non_empty_trims() {
    assert_eq!(non_empty("  dj  ").as_deref(), Some("dj"));
    assert_eq!(non_empty(" \t "), None);
}

#[test]
fn default_and_stored_rows() {
    let d = SetDraft::default_new();
    assert_eq!((d.time.as_str(), d.duration.as_str()), ("21:00", "60"));
    assert!(d.dj.is_empty() && d.vj.is_empty() && d.notes.is_empty() && !d.mark_delete);
    let mut s = set(7, Some("aliquem"), None);
    s.start.minute = 5;
    s.duration_min = 90;
    s.notes = "late".to_string();
    let r = SetDraft::from_set(&s);
    assert_eq!(
        (r.time.as_str(), r.duration.as_str(), r.dj.as_str(), r.vj.as_str(), r.notes.as_str()),
        ("07:05", "90", "aliquem", "", "late")
    );
}

#[test]
fn build_show_sorts_and_trims() {
    let draft = ShowDraft {
        date: date(2025, 3, 28),
        sets: vec![row(" 22:00 ", " 90 ", " kohada ", ""), row("21:00", "60", "", "aliquem")],
        dirty: true,
    };
    let show = build_show_from_draft(&draft).unwrap();
    assert_eq!(show.date, date(2025, 3, 28));
    assert_eq!(show.sets[0].start, WallTime { hour: 21, minute: 0 });
    assert_eq!(show.sets[0].vj.as_deref(), Some("aliquem"));
    assert_eq!(show.sets[1].dj.as_deref(), Some("kohada"));
    assert_eq!(show.sets[1].duration_min, 90);
    assert!(show.validate_shape().is_ok());
}

#[test]
fn build_show_reports_first_bad_row() {
    let d = |sets: Vec<SetDraft>| ShowDraft { date: date(2025, 3, 28), sets, dirty: true };
    assert!(matches!(build_show_from_draft(&d(vec![])), Err(DraftError::NoSets)));
    let e = build_show_from_draft(&d(vec![row("21:00", "60", "a", ""), row("25:00", "60", "a", "")])).unwrap_err();
    assert_eq!(e.message(), "row 2: bad time \"25:00\": bad time value \"25:00\"");
    let e = build_show_from_draft(&d(vec![row("21:00", "-5", "a", "")])).unwrap_err();
    assert_eq!(e.message(), "row 1: duration must be a number");
    let e = build_show_from_draft(&d(vec![row("21:00", "60", " ", "")])).unwrap_err();
    assert_eq!(e.message(), "row 1: needs a DJ or VJ slug");
}

#[test]
fn loaded_draft_is_clean_until_edited() {
    let ds = dataset();
    let mut draft = load_show_draft(&ds.shows, date(2025, 3, 28)).unwrap();
    assert!(!draft_is_dirty(&draft, Some(&ds.shows[0])));
    draft.sets[1].notes = "changed".to_string();
    assert!(draft_is_dirty(&draft, Some(&ds.shows[0])));
    assert!(draft_is_dirty(&draft, None));
    assert!(load_show_draft(&ds.shows, date(2025, 1, 1)).is_none());
}

#[test]
fn new_show_and_performer_forms() {
    let ds = dataset();
    assert_eq!(new_show_draft(&ds.shows, "2025-3-x").unwrap_err().message(), "date must be YYYY-MM-DD");
    assert_eq!(new_show_draft(&ds.shows, "2025-03-28").unwrap_err().message(), "show 2025-03-28 already exists");
    let d = new_show_draft(&ds.shows, "2025-05-02").unwrap();
    assert_eq!(d.date, date(2025, 5, 2));
    assert!(d.sets.is_empty() && d.dirty);
    assert_eq!(new_performer_form(" dj_x ", " X ").unwrap(), ("dj_x".to_string(), "X".to_string()));
    assert_eq!(new_performer_form("DJ", "X").unwrap_err().message(), "slug must be a-z, 0-9, underscore");
    assert_eq!(new_performer_form("dj", "  ").unwrap_err().message(), "display name required");
}

#[test]
fn performer_form_round_trip() {
    let mut perfs = table();
    let mut d = PerformerDraft::from_performer("aliquem", perfs.get("aliquem").unwrap());
    assert_eq!(d.aliases, "Ali Q");
    d.aliases = "Ali Q\n\n  AQ \r\nA.Q.".to_string();
    d.display_name = "  Aliquem!  ".to_string();
    d.notes = " as typed ".to_string();
    apply_performer_draft(&mut perfs, &d).unwrap();
    let p = perfs.get("aliquem").unwrap();
    assert_eq!(p.display_name, "Aliquem!");
    assert_eq!(p.aliases, vec!["Ali Q", "AQ", "A.Q."]);
    assert_eq!(p.notes, " as typed ");
    assert!(perfs.validate().is_ok());
    d.display_name = " ".to_string();
    assert_eq!(apply_performer_draft(&mut perfs, &d).unwrap_err().message(), "display name required");
    d.slug = "ghost".to_string();
    assert_eq!(apply_performer_draft(&mut perfs, &d).unwrap_err().message(), "performer \"ghost\" not found");
}

#[test]
fn lists_filter_in_lowercase() {
    let ds = dataset();
    assert_eq!(show_list(&ds.shows, ""), vec![date(2025, 4, 4), date(2025, 3, 28)]);
    assert_eq!(show_list(&ds.shows, "03-"), vec![date(2025, 3, 28)]);
    let found = performer_list(&ds.performers, "Tur");
    assert_eq!(found, vec![("turels".to_string(), "TURELS".to_string())]);
    let found = performer_list(&ds.performers, "ali q");
    assert_eq!(found, vec![("aliquem".to_string(), "Aliquem".to_string())]);
    assert_eq!(performer_list(&ds.performers, "").len(), 3);
}

#[test]
fn last_played_search_orders_recent_first() {
    let ds = dataset();
    let hits = last_played_search(&ds, "  A ");
    let slugs: Vec<&str> = hits.iter().map(|h| h.slug.as_str()).collect();
    // kohada played 2025-04-04, aliquem 2025-03-28; turels never.
    assert_eq!(slugs, vec!["kohada", "aliquem"]);
    assert_eq!(hits[0].last_played, Some(date(2025, 4, 4)));
    let hits = last_played_search(&ds, "e");
    let slugs: Vec<&str> = hits.iter().map(|h| h.slug.as_str()).collect();
    assert_eq!(slugs, vec!["aliquem", "turels"]);
    assert_eq!(hits[1].last_played, None);
    assert!(last_played_search(&ds, "   ").is_empty());
}

#[test]
fn history_newest_first() {
    let ds = dataset();
    let h = appearance_history(&ds, "kohada");
    assert_eq!(h.len(), 2);
    assert_eq!(h[0].date, date(2025, 4, 4));
    assert_eq!(h[1].role, "DJ");
    let h = appearance_history(&ds, "aliquem");
    let roles: Vec<&str> = h.iter().map(|r| r.role).collect();
    assert_eq!(roles, vec!["DJ", "VJ"]);
}

#[test]
fn slug_field_status() {
    let perfs = table();
    assert_eq!(slug_status("  ", &perfs), SlugStatus::Empty);
    assert_eq!(slug_status(" kohada ", &perfs), SlugStatus::Known);
    assert_eq!(slug_status("ghost", &perfs), SlugStatus::Unknown);
}

#[test]
fn saving_an_unchanged_form_gives_back_the_show() {
    let stored = Show {
        date: date(2025, 5, 2),
        sets: vec![
            ShowSet { notes: "opener".to_string(), duration_min: 45, ..set(20, Some("kohada"), None) },
            set(21, Some("aliquem"), Some("turels")),
            set(23, None, Some("kohada")),
        ],
    };
    let draft = load_show_draft(&vec![stored.clone()], date(2025, 5, 2)).unwrap();
    let built = build_show_from_draft(&draft).unwrap();
    assert_eq!(built.date, stored.date);
    assert_eq!(built.sets.len(), stored.sets.len());
    for (a, b) in built.sets.iter().zip(stored.sets.iter()) {
        assert_eq!(a.start, b.start);
        assert_eq!(a.duration_min, b.duration_min);
        assert_eq!(a.dj, b.dj);
        assert_eq!(a.vj, b.vj);
        assert_eq!(a.notes, b.notes);
    }
}

#[test]
fn saving_an_unchanged_performer_form_keeps_the_performer() {
    let mut perfs = table();
    let mut stored = performer("Kohada", &["Ko Hada", "KH"]);
    stored.twitch = "https://twitch.tv/kohada".to_string();
    stored.notes = " spacing kept \n".to_string();
    perfs = Performers(vec![perfs.0[0].clone(), ("kohada".to_string(), stored.clone()), perfs.0[2].clone()]);
    let d = PerformerDraft::from_performer("kohada", &stored);
    apply_performer_draft(&mut perfs, &d).unwrap();
    let p = perfs.get("kohada").unwrap();
    assert_eq!(p.display_name, stored.display_name);
    assert_eq!(p.aliases, stored.aliases);
    assert_eq!(p.twitch, stored.twitch);
    assert_eq!(p.cdn, stored.cdn);
    assert_eq!(p.notes, stored.notes);
}

#[test]
fn removing_and_adding_rows_marks_the_form() {
    let mut d = load_show_draft(&dataset().shows, date(2025, 3, 28)).unwrap();
    assert!(!d.dirty);
    d.drop_marked();
    assert_eq!(d.sets.len(), 2);
    assert!(!d.dirty);
    d.sets[0].mark_delete = true;
    d.drop_marked();
    assert_eq!(d.sets.len(), 1);
    assert_eq!(d.sets[0].time, "20:00");
    assert!(d.dirty);
    let mut e = load_show_draft(&dataset().shows, date(2025, 4, 4)).unwrap();
    e.add_default_set();
    assert_eq!(e.sets.len(), 2);
    assert_eq!(e.sets[1].time, "21:00");
    assert_eq!(e.sets[1].duration, "60");
    assert!(e.sets[1].dj.is_empty() && !e.sets[1].mark_delete);
    assert!(e.dirty);
}

#[test]
fn new_show_on_a_date_and_lowered_filter() {
    let ds = dataset();
    let d = new_show_draft_on(&ds.shows, date(2025, 5, 2)).unwrap();
    assert_eq!(d.date, date(2025, 5, 2));
    assert!(d.sets.is_empty() && d.dirty);
    assert_eq!(new_show_draft_on(&ds.shows, date(2025, 4, 4)).unwrap_err().message(), "show 2025-04-04 already exists");
    assert_eq!(show_list_lowered(&ds.shows, "-03-"), vec![date(2025, 3, 28)]);
    assert_eq!(show_list_lowered(&ds.shows, ""), vec![date(2025, 4, 4), date(2025, 3, 28)]);
}

#[test]
fn days_ago_counts_calendar_days() {
    assert_eq!(djdb::editor::days_ago(date(2026, 5, 9), date(2026, 5, 2)), 7);
    assert_eq!(djdb::editor::days_ago(date(2025, 1, 1), date(2024, 1, 1)), 366);
    assert_eq!(djdb::editor::days_ago(date(2024, 3, 1), date(2024, 2, 28)), 2);
    assert_eq!(djdb::editor::days_ago(date(2026, 5, 2), date(2026, 5, 9)), -7);
}
