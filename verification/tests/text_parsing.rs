use djdb::import_text::{parse_month_day, parse_time, slug_of_ascii, slugify};
use djdb::performer::is_valid_slug;
use djdb::show::WallTime;

#[test]
fn parse_time_variants() {
    assert_eq!(parse_time("21:00ET/10:00JST"), Some((21, 0)));
    assert_eq!(parse_time("0100ET/16:00JST"), Some((1, 0)));
    assert_eq!(parse_time("24:00ET/13:00JST"), Some((24, 0)));
    assert_eq!(parse_time("21:00ET/04:00CET"), Some((21, 0)));
    assert_eq!(parse_time("21:30 ET / 10:30 JST"), Some((21, 30)));
}

#[test]
fn parse_time_bad() {
    assert_eq!(parse_time(""), None);
    assert_eq!(parse_time("nope"), None);
}

#[test]
fn parse_month_day_variants() {
    assert_eq!(parse_month_day("3-28(US)/3-29(JP)"), Some((3, 28)));
    assert_eq!(parse_month_day("10-21(US)10-22(JP)"), Some((10, 21)));
    assert_eq!(parse_month_day("12-17/12-18"), Some((12, 17)));
    assert_eq!(parse_month_day("12-24/25"), Some((12, 24)));
    assert_eq!(parse_month_day("Kaleidosky 4-25(US)4-26(JP)"), Some((4, 25)));
    assert_eq!(parse_month_day("KalleidoSky12-1718"), Some((12, 17)));
    assert_eq!(parse_month_day("no dates here"), None);
}

#[test]
fn slugify_basic() {
    assert_eq!(slugify("Pizza Princess").as_deref(), Some("pizza_princess"));
    assert_eq!(slugify("S.S.Stripe").as_deref(), Some("s_s_stripe"));
    assert_eq!(slugify("GoblinMode").as_deref(), Some("goblinmode"));
    assert_eq!(slugify("Goblin mode").as_deref(), Some("goblin_mode"));
}

#[test]
fn slugify_unicode() {
    // deunicode romanizes Japanese kana.
    let s = slugify("めぐみ").unwrap();
    assert!(!s.is_empty());
    assert!(s.chars().all(|c| c.is_ascii_lowercase() || c == '_' || c.is_ascii_digit()));
}

#[test]
fn slugify_parens() {
    assert_eq!(
        slugify("Transistors (Morganite/Draco)").as_deref(),
        Some("transistors_morganite_draco")
    );
    assert_eq!(slugify("Hydie (NerdyHydra)").as_deref(), Some("hydie_nerdyhydra"));
}

#[test]
fn valid_slugs() {
    assert!(is_valid_slug("pizza_princess"));
    assert!(is_valid_slug("dj_1"));
    assert!(is_valid_slug("a"));
}

#[test]
fn invalid_slugs() {
    assert!(!is_valid_slug(""));
    assert!(!is_valid_slug("Pizza"));
    assert!(!is_valid_slug("pizza-princess"));
    assert!(!is_valid_slug("pizza princess"));
    assert!(!is_valid_slug("ピザ"));
}

#[test]
fn parse_walltime() {
    assert_eq!(WallTime::parse("20:00").unwrap(), WallTime { hour: 20, minute: 0 });
    assert_eq!(WallTime::parse("00:59").unwrap(), WallTime { hour: 0, minute: 59 });
}

#[test]
fn bad_walltime() {
    assert!(WallTime::parse("24:00").is_err());
    assert!(WallTime::parse("12:60").is_err());
    assert!(WallTime::parse("1200").is_err());
    assert!(WallTime::parse("abc").is_err());
}

#[test]
fn slugify_strips_and_collapses_separators() {
    assert_eq!(slugify("  --DJ  Café!! ").as_deref(), Some("dj_cafe"));
    assert_eq!(slugify("!!!"), None);
    assert_eq!(slugify(""), None);
}

#[test]
fn walltime_text_round_trip() {
    let t = WallTime::parse("07:05").unwrap();
    assert_eq!(t.to_text(), "07:05");
    assert_eq!(WallTime::parse(&t.to_text()).unwrap(), t);
}

#[test]
fn parse_time_compact_and_limits() {
    assert_eq!(parse_time("930ET"), Some((9, 30)));
    assert_eq!(parse_time("25:00ET"), None);
    assert_eq!(parse_time("21:60ET"), None);
    assert_eq!(parse_time("ET only"), None);
}

#[test]
fn parse_month_day_rejects_out_of_range() {
    assert_eq!(parse_month_day("13-01 then 2-30"), Some((2, 30)));
    assert_eq!(parse_month_day("0-5"), None);
}

#[test]
fn slugify_keeps_a_canonical_slug() {
    assert_eq!(slugify("dj_kohada_2").as_deref(), Some("dj_kohada_2"));
    for name in ["  Pizza -- Princess!! ", "Transistors (Morganite/Draco)", "めぐみ"] {
        let once = slugify(name).unwrap();
        assert_eq!(slugify(&once), Some(once.clone()));
    }
}

#[test]
fn slug_of_ascii_text() {
    assert_eq!(slug_of_ascii("  S.S. Stripe -- Live!").as_deref(), Some("s_s_stripe_live"));
    assert_eq!(slug_of_ascii("__DJ__2__").as_deref(), Some("dj_2"));
    assert_eq!(slug_of_ascii(" - ! "), None);
}

#[test]
fn parse_time_and_month_day_laws_on_examples() {
    assert_eq!(parse_time("24:00ET/13:00JST"), Some((24, 0)));
    assert_eq!(parse_time("07:05ET late"), Some((7, 5)));
    assert_eq!(parse_time("21:00 JST"), None);
    assert_eq!(parse_time("25:00ET"), None);
    assert_eq!(parse_month_day("12-31 (US)"), Some((12, 31)));
    assert_eq!(parse_month_day("3-28"), Some((3, 28)));
    assert_eq!(parse_month_day("March 28 2025"), None);
}

#[test]
fn slugify_none_without_letters_or_digits() {
    assert_eq!(slugify("!!! ???"), None);
    assert_eq!(slugify("x!").as_deref(), Some("x"));
}

#[test]
fn slugify_drops_delete() {
    assert_eq!(slugify("a\u{7f}b").as_deref(), Some("ab"));
}
