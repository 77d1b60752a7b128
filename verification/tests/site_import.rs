use chrono::{DateTime, NaiveDate, Timelike};
use chrono_tz::America::New_York;
use djdb::data::Dataset;
use djdb::date::Date;
use djdb::import::{
    build_plan, make_date, merge_planned, register_performer, sheet_sets, ImportError, PlannedShow,
};
use djdb::performer::{Performer, Performers};
use djdb::sheet::{parse_sheet, Cell, RawRow, Sheet};
use djdb::show::{default_duration, Show, ShowSet, WallTime};
use djdb::site::{
    et_jst, format_et_jst, index_appearances, landing_shows, to_et_datetime, try_to_et_datetime, url,
    BuildConfig,
};

fn date(y: i32, m: u32, d: u32) -> Date {
    make_date(y, m, d).unwrap()
}

fn t(s: &str) -> Cell {
    Cell::Text(s.to_string())
}

fn o() -> Cell {
    Cell::Other
}

#[test]
fn et_standard_time_to_jst() {
    // 2025-01-15 21:00 ET is EST (UTC-5) -> 02:00 UTC -> 11:00 JST next day.
    let (et, jst) = format_et_jst(date(2025, 1, 15), WallTime { hour: 21, minute: 0 });
    assert_eq!(et, "21:00");
    assert_eq!(jst, "11:00");
}

#[test]
fn et_daylight_time_to_jst() {
    // 2025-07-15 21:00 ET is EDT (UTC-4) -> 01:00 UTC -> 10:00 JST next day.
    let (_et, jst) = format_et_jst(date(2025, 7, 15), WallTime { hour: 21, minute: 0 });
    assert_eq!(jst, "10:00");
}

#[test]
fn overnight_rollover_crosses_dst_spring_forward() {
    // 2025-03-08 show, set at 26:00 (= 2am on 2025-03-09) lands inside the
    // spring-forward gap (2->3am): the next valid instant is taken.
    let dt = to_et_datetime(date(2025, 3, 8), WallTime { hour: 26, minute: 0 });
    let local = DateTime::from_timestamp(dt.utc_seconds, 0).unwrap().with_timezone(&New_York);
    // Resulting datetime should be 2025-03-09 03:00 EDT.
    assert_eq!(local.date_naive(), NaiveDate::from_ymd_opt(2025, 3, 9).unwrap());
    assert_eq!(local.hour(), 3);
}

#[test]
fn overnight_rollover_across_fall_back() {
    // 2025-11-01 show, set at 25:30 (= 1:30am on 2025-11-02) occurs twice;
    // the earlier is taken: 01:30 EDT = 05:30 UTC.
    let dt = to_et_datetime(date(2025, 11, 1), WallTime { hour: 25, minute: 30 });
    let utc = DateTime::from_timestamp(dt.utc_seconds, 0).unwrap();
    assert_eq!(utc.hour(), 5);
    assert_eq!(utc.minute(), 30);
}

#[test]
fn et_jst_in_the_gap_and_invalid_minutes() {
    let (et, jst) = et_jst(date(2025, 3, 8), WallTime { hour: 26, minute: 0 }).unwrap();
    assert_eq!(et, "03:00");
    assert_eq!(jst, "16:00");
    assert_eq!(try_to_et_datetime(date(2025, 3, 8), WallTime { hour: 20, minute: 75 }), None);
    assert_eq!(et_jst(date(2025, 3, 8), WallTime { hour: 20, minute: 75 }), None);
}

#[test]
fn url_helper() {
    let cfg = BuildConfig { base_url: "/".into(), today: date(2026, 5, 9) };
    assert_eq!(url(&cfg, "shows/"), "/shows/");
    assert_eq!(url(&cfg, ""), "/");

    let cfg = BuildConfig { base_url: "/djdb/".into(), today: date(2026, 5, 9) };
    assert_eq!(url(&cfg, "shows/"), "/djdb/shows/");
    assert_eq!(url(&cfg, ""), "/djdb/");
    assert_eq!(url(&cfg, "//performers/x/"), "/djdb/performers/x/");
}

fn performer(name: &str) -> Performer {
    Performer {
        display_name: name.to_string(),
        aliases: vec![],
        notes: String::new(),
        twitch: String::new(),
        cdn: String::new(),
    }
}

fn set(hour: u8, dj: Option<&str>, vj: Option<&str>) -> ShowSet {
    ShowSet {
        start: WallTime { hour, minute: 0 },
        duration_min: default_duration(),
        dj: dj.map(|s| s.to_string()),
        vj: vj.map(|s| s.to_string()),
        notes: format!("at {hour}"),
    }
}

fn site_dataset() -> Dataset {
    let perfs = Performers(vec![
        ("aliquem".to_string(), performer("Aliquem")),
        ("kohada".to_string(), performer("Kohada")),
    ]);
    let shows = vec![
        ("a".to_string(), Show { date: date(2025, 3, 28), sets: vec![set(22, Some("aliquem"), None), set(20, Some("kohada"), Some("aliquem"))] }),
        ("b".to_string(), Show { date: date(2025, 4, 4), sets: vec![set(21, Some("aliquem"), None)] }),
        ("c".to_string(), Show { date: date(2025, 4, 11), sets: vec![set(21, Some("kohada"), None)] }),
    ];
    Dataset::from_parts(perfs, shows).unwrap()
}

#[test]
fn appearances_newest_first() {
    let ds = site_dataset();
    let idx = index_appearances(&ds);
    let keys: Vec<&str> = idx.iter().map(|(k, _)| k.as_str()).collect();
    assert_eq!(keys, vec!["aliquem", "kohada"]);
    let ali = &idx[0].1;
    assert_eq!(ali.len(), 3);
    assert_eq!(ali[0].date, date(2025, 4, 4));
    // within 2025-03-28: 20:00 (as VJ) before 22:00 (as DJ)
    assert_eq!(ali[1].start.hour, 20);
    assert_eq!(ali[1].role, "VJ");
    assert_eq!(ali[2].start.hour, 22);
    assert_eq!(ali[2].role, "DJ");
    assert_eq!(ali[2].notes, "at 22");
}

#[test]
fn landing_picks_next_and_recent() {
    let ds = site_dataset();
    let (next, recent) = landing_shows(&ds.shows, date(2025, 4, 4));
    assert_eq!(next, Some(1));
    assert_eq!(recent, vec![0]);
    let (next, recent) = landing_shows(&ds.shows, date(2026, 1, 1));
    assert_eq!(next, None);
    assert_eq!(recent, vec![2, 1, 0]);
}

#[test]
fn register_and_merge() {
    let mut perfs = Performers::new();
    let mut merges = Vec::new();
    register_performer("Goblin mode", &mut perfs, &mut merges);
    register_performer("Goblin mode", &mut perfs, &mut merges); // exact dup
    register_performer("goblin_mode", &mut perfs, &mut merges); // same slug, diff display
    assert_eq!(perfs.len(), 1);
    let p = perfs.get("goblin_mode").unwrap();
    assert_eq!(p.display_name, "Goblin mode");
    assert_eq!(p.aliases, vec!["goblin_mode"]);
    assert_eq!(merges.len(), 1);
}

fn lineup_sheet(day: &str, rows: Vec<(&str, &str, &str)>) -> Sheet {
    let mut cells = vec![
        vec![t("KaleidoSky"), o(), o(), o()],
        vec![t("Day:"), t(day), o(), o()],
        vec![t("Time"), t(" dj "), t("VJ"), t("Notes")],
    ];
    for (time, dj, vj) in rows {
        let c = |s: &str| if s.is_empty() { o() } else { t(s) };
        cells.push(vec![c(time), c(dj), c(vj), o()]);
    }
    Sheet { rows: cells, width: 4 }
}

#[test]
fn parse_sheet_reads_lineup() {
    let sheet = lineup_sheet("4-4(US)/4-5(JP)", vec![("21:00ET/10:00JST", "Aliquem", ""), ("", "", "")]);
    let raw = parse_sheet("Apr", &sheet).unwrap();
    assert_eq!((raw.month, raw.day), (4, 4));
    assert_eq!(raw.rows.len(), 1);
    assert_eq!(raw.rows[0].parsed_time, Some((21, 0)));
    assert_eq!(raw.rows[0].dj.as_deref(), Some("Aliquem"));
    let no_header = Sheet { rows: vec![vec![t("notes")]], width: 1 };
    assert_eq!(parse_sheet("x", &no_header).unwrap_err(), "no DJ header row");
}

#[test]
fn sheet_sets_roll_past_midnight_and_overflow() {
    let row = |h: u8, dj: &str| RawRow { parsed_time: Some((h, 0)), dj: Some(dj.to_string()), vj: None, notes: String::new() };
    let rows = vec![row(23, "A"), row(23, "dup"), row(22, "B"), row(21, "C")];
    let (sets, overflows) = sheet_sets(&rows);
    assert_eq!(sets.len(), 2);
    assert_eq!(sets[0].start, WallTime { hour: 23, minute: 0 });
    assert_eq!(sets[1].start, WallTime { hour: 46, minute: 0 });
    assert_eq!(sets[1].dj.as_deref(), Some("b"));
    assert_eq!(overflows, vec![(21, 0)]);
}

#[test]
fn build_plan_infers_years_and_registers() {
    let dec = lineup_sheet("12-28", vec![("21:00ET", "Goblin mode", "")]);
    let notes = Sheet { rows: vec![vec![t("just notes")]], width: 1 };
    let apr = lineup_sheet(
        "4-4(US)/4-5(JP)",
        vec![("22:00ET", "Kohada", "Turels"), ("21:00ET", "Aliquem", ""), ("0000ET", "goblin_mode", "")],
    );
    let sheets = vec![("Dec".to_string(), dec), ("Notes".to_string(), notes), ("Apr".to_string(), apr)];
    let plan = build_plan(&sheets, date(2025, 4, 4)).unwrap();
    assert_eq!(plan.shows.len(), 2);
    assert_eq!(plan.shows[0].date, date(2024, 12, 28));
    assert_eq!(plan.shows[1].date, date(2025, 4, 4));
    assert_eq!(plan.shows[1].source_sheet, "Apr");
    let starts: Vec<(u8, u8)> = plan.shows[1].show.sets.iter().map(|s| (s.start.hour, s.start.minute)).collect();
    // 21:00 after 22:00 rolls to the next day (45:00); then 00:00 -> 48:00 overflows.
    assert_eq!(starts, vec![(22, 0), (45, 0)]);
    assert_eq!(
        plan.skipped,
        vec![
            ("Notes".to_string(), "no DJ header row".to_string()),
            ("Apr".to_string(), "time 00:00 overflowed 47h".to_string()),
        ]
    );
    let slugs: Vec<&str> = plan.performers.0.iter().map(|(k, _)| k.as_str()).collect();
    assert_eq!(slugs, vec!["aliquem", "goblin_mode", "kohada", "turels"]);
    assert_eq!(plan.merges, vec![("goblin_mode".to_string(), "goblin_mode".to_string())]);
}

#[test]
fn build_plan_rejects_invalid_date() {
    let feb = lineup_sheet("2-30", vec![("21:00ET", "Aliquem", "")]);
    let err = build_plan(&vec![("Feb".to_string(), feb)], date(2025, 4, 4)).unwrap_err();
    assert!(matches!(err, ImportError::InvalidDate { .. }));
    assert_eq!(err.message(), "sheet \"Feb\": invalid date");
}

#[test]
fn merge_planned_joins_same_date() {
    let d = date(2025, 1, 1);
    let mut shows: Vec<PlannedShow> = Vec::new();
    merge_planned(&mut shows, PlannedShow { date: d, source_sheet: "A".into(), show: Show { date: d, sets: vec![set(22, Some("a"), None)] } });
    let e = date(2024, 1, 1);
    merge_planned(&mut shows, PlannedShow { date: e, source_sheet: "C".into(), show: Show { date: e, sets: vec![set(20, Some("c"), None)] } });
    merge_planned(&mut shows, PlannedShow { date: d, source_sheet: "B".into(), show: Show { date: d, sets: vec![set(21, Some("b"), None)] } });
    assert_eq!(shows.len(), 2);
    assert_eq!(shows[0].date, e);
    assert_eq!(shows[1].source_sheet, "A + B");
    assert_eq!(shows[1].show.sets.len(), 2);
}

#[test]
fn build_plan_merges_sheets_on_one_month_day() {
    let a = lineup_sheet("3-28", vec![("21:00ET", "Aliquem", "")]);
    let b = lineup_sheet("3-28", vec![("22:00ET", "Kohada", "")]);
    let c = lineup_sheet("1-10", vec![("20:00ET", "Turels", "")]);
    let sheets = vec![("Mar A".to_string(), a), ("Mar B".to_string(), b), ("Jan".to_string(), c)];
    let plan = build_plan(&sheets, date(2026, 1, 10)).unwrap();
    assert_eq!(plan.shows.len(), 2);
    assert_eq!(plan.shows[0].date, date(2025, 3, 28));
    assert_eq!(plan.shows[0].source_sheet, "Mar A + Mar B");
    assert_eq!(plan.shows[0].show.sets.len(), 2);
    assert_eq!(plan.shows[1].date, date(2026, 1, 10));
}

#[test]
fn build_plan_registers_padded_names() {
    let sheet = lineup_sheet("5-2", vec![("21:00ET", "  Kohada\u{3000}", ""), ("22:00ET", "Aliquem ", " Turels")]);
    let plan = build_plan(&vec![("May".to_string(), sheet)], date(2025, 5, 2)).unwrap();
    let sets = &plan.shows[0].show.sets;
    assert_eq!(sets[0].dj.as_deref(), Some("kohada"));
    assert_eq!(sets[1].vj.as_deref(), Some("turels"));
    for s in sets {
        for k in [&s.dj, &s.vj].into_iter().flatten() {
            assert!(plan.performers.contains(k));
        }
    }
}
