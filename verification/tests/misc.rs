use vfd::add_review::{
    asks_for_isbns, asks_for_narrator, cover_search_url, finished_date_question, is_non_empty,
    optional_answer, parse_year, rating_from_stars, tags_from_answer, tint_colour_from_choice,
    trimmed_answer,
};
use vfd::bookish;
use vfd::colours::{hex_code, is_hex_string, parse_hex_string, try_parse_hex_string, Rgb8};
use vfd::create_favicon::tint_pixels;
use vfd::fs_helpers::{is_ds_store, is_skipped_when_syncing, FileStatus, IsNewerThan, NewerError};
use vfd::models::{default_as_false, is_false};
use vfd::render_html::HtmlRenderMode;
use vfd::serve::{rebuilds_for, server_address, Rebuild};
use vfd::version::{elapsed_report, is_update_available, ElapsedReport};

#[test]
fn hex_strings_are_parsed_as_colours() {
    assert_eq!(parse_hex_string("#d01c11"), Rgb8 { red: 208, green: 28, blue: 17 });
    assert_eq!(parse_hex_string("d01c11"), Rgb8 { red: 208, green: 28, blue: 17 });
    assert_eq!(parse_hex_string("#abc"), Rgb8 { red: 170, green: 187, blue: 204 });
}

#[test]
fn only_colour_codes_are_read_as_colours() {
    assert_eq!(try_parse_hex_string("#d01c11"), Some(Rgb8 { red: 208, green: 28, blue: 17 }));
    assert_eq!(try_parse_hex_string("#fff"), Some(Rgb8 { red: 255, green: 255, blue: 255 }));
    assert_eq!(try_parse_hex_string("#d01c1"), None);
    assert_eq!(try_parse_hex_string("#zzzzzz"), None);
    assert_eq!(try_parse_hex_string("#d01c1é"), None);
    assert_eq!(try_parse_hex_string(""), None);
}

#[test]
fn bookish_hex_strings_are_parsed_in_pairs() {
    assert_eq!(bookish::colours::parse_hex_string("#d01c11"), Rgb8 { red: 208, green: 28, blue: 17 });
    assert_eq!(bookish::colours::parse_hex_string("#+f+f+f"), Rgb8 { red: 15, green: 15, blue: 15 });
}

#[test]
fn colours_are_written_as_hex_codes() {
    let c = Rgb8 { red: 208, green: 28, blue: 17 };
    assert_eq!(hex_code(c), "d01c11");
    assert_eq!(hex_code(Rgb8 { red: 0, green: 10, blue: 255 }), "000aff");
    assert_eq!(parse_hex_string(&format!("#{}", hex_code(c))), c);
}

#[test]
fn hex_string_arguments_are_checked() {
    assert_eq!(is_hex_string("#d01c11".to_string()), Ok(()));
    assert_eq!(is_hex_string("#D01C1F".to_string()), Ok(()));
    assert_eq!(
        is_hex_string("red".to_string()),
        Err("Expected a hex string, e.g. #d01c11, got red".to_string())
    );
    assert!(is_hex_string("#d01c1".to_string()).is_err());
    assert!(is_hex_string("#d01c1g".to_string()).is_err());
}

#[test]
fn favicons_are_tinted_keeping_transparency() {
    let mut pixels = vec![0, 0, 0, 255, 0, 0, 0, 0, 9, 9, 9, 128];
    tint_pixels(&mut pixels, Rgb8 { red: 1, green: 2, blue: 3 });
    assert_eq!(pixels, vec![1, 2, 3, 255, 1, 2, 3, 0, 1, 2, 3, 128]);
}

#[test]
fn newer_files_are_found() {
    let old = FileStatus::Modified(10);
    let new = FileStatus::Modified(20);
    assert_eq!(new.is_newer_than(&old), Ok(true));
    assert_eq!(old.is_newer_than(&new), Ok(false));
    assert_eq!(old.is_newer_than(&FileStatus::NoMetadata), Ok(true));
    assert_eq!(FileStatus::NoMetadata.is_newer_than(&old), Err(NewerError::Metadata));
    assert_eq!(old.is_newer_than(&FileStatus::NoModifiedTime), Err(NewerError::ModifiedTime));
    assert_eq!(
        bookish::fs_helpers::IsNewerThan::is_newer_than(&old, &FileStatus::NoMetadata),
        Ok(false)
    );
}

#[test]
fn some_files_are_not_synced() {
    assert!(is_ds_store(Some(".DS_Store")));
    assert!(!is_ds_store(Some("style.css")));
    assert!(!is_ds_store(None));
    assert!(is_skipped_when_syncing(Some("tests")));
    assert!(!is_skipped_when_syncing(Some("style.css")));
}

#[test]
fn serde_helpers() {
    assert!(is_false(&false));
    assert!(!is_false(&true));
    assert!(!default_as_false());
}

#[test]
fn the_server_binds_to_known_hosts_only() {
    assert_eq!(server_address("127.0.0.1"), Some(("localhost", [127, 0, 0, 1])));
    assert_eq!(server_address("0.0.0.0"), Some(("0.0.0.0", [0, 0, 0, 0])));
    assert_eq!(server_address("example.net"), None);
}

#[test]
fn updates_are_offered_for_other_versions() {
    assert!(!is_update_available("v1.4.3", "1.4.3"));
    assert!(is_update_available("v1.4.4", "1.4.3"));
    assert!(is_update_available("1.4.3", "1.4.3"));
}

#[test]
fn elapsed_times_are_reported_by_size() {
    assert_eq!(elapsed_report(0, 0), ElapsedReport::UnderOneMillisecond);
    assert_eq!(elapsed_report(0, 12), ElapsedReport::Milliseconds(12));
    assert_eq!(elapsed_report(2, 2500), ElapsedReport::Seconds);
}

#[test]
fn answers_are_cleaned() {
    assert!(is_non_empty("x"));
    assert!(!is_non_empty(""));
    assert_eq!(trimmed_answer("  Piranesi \n"), "Piranesi");
    assert_eq!(optional_answer("".to_string()), None);
    assert_eq!(optional_answer("Book 1".to_string()), Some("Book 1".to_string()));
}

#[test]
fn years_are_four_digits() {
    assert_eq!(parse_year("2020"), Some(2020));
    assert_eq!(parse_year("0999"), Some(999));
    assert_eq!(parse_year("202"), None);
    assert_eq!(parse_year("20201"), None);
    assert_eq!(parse_year("20a0"), None);
    assert_eq!(parse_year("2020\n"), None);
}

#[test]
fn ratings_are_counted_in_stars() {
    assert_eq!(rating_from_stars("★★★★★"), 5);
    assert_eq!(rating_from_stars("★"), 1);
}

#[test]
fn tint_colours_are_read_from_dominant_colours_output() {
    assert_eq!(tint_colour_from_choice("\x1b[38;2;145;101;64m▇ #916540\x1b[0m"), "#916540");
    assert_eq!(tint_colour_from_choice("#916540"), "#916540");
}

#[test]
fn tags_are_split_at_spaces() {
    assert_eq!(tags_from_answer(" fantasy scifi "), vec!["fantasy", "scifi"]);
    assert_eq!(tags_from_answer("fantasy  scifi"), vec!["fantasy", "", "scifi"]);
    assert_eq!(tags_from_answer(""), vec![""]);
}

#[test]
fn cover_searches_are_encoded() {
    assert_eq!(
        cover_search_url("Piranesi", "Susanna Clarke"),
        "https://www.google.co.uk/search?safe=images&tbm=isch&as_q=Piranesi%20by%20Susanna%20Clarke&tbs=isz%3Al"
    );
    assert_eq!(
        cover_search_url("Æ", "x"),
        "https://www.google.co.uk/search?safe=images&tbm=isch&as_q=%C3%86%20by%20x&tbs=isz%3Al"
    );
}

#[test]
fn questions_depend_on_the_format() {
    assert!(asks_for_narrator("audiobook"));
    assert!(!asks_for_narrator("ebook"));
    assert!(asks_for_isbns("paperback"));
    assert!(asks_for_isbns("hardback"));
    assert!(!asks_for_isbns("audiobook"));
    assert_eq!(finished_date_question(true), "When did you finish reading it?");
    assert_eq!(finished_date_question(false), "When did you stop reading it?");
}

#[test]
fn bookish_cover_names() {
    assert_eq!(
        bookish::add_review::cover_file_name("Lemony Snicket", "https://books.alexwlchan.net/thumbnails/cosmogramma.jpg"),
        "lemony-snicket.jpg"
    );
    assert_eq!(bookish::text::slugify("On the Origin of Species"), "on-the-origin-of-species");
}

#[test]
fn changed_folders_trigger_their_rebuilds() {
    assert_eq!(
        rebuilds_for("covers"),
        vec![Rebuild::Thumbnails, Rebuild::HtmlPages(HtmlRenderMode::Full)]
    );
    assert_eq!(rebuilds_for("reviews"), vec![Rebuild::HtmlPages(HtmlRenderMode::Incremental)]);
    assert_eq!(rebuilds_for("static"), vec![Rebuild::StaticFiles]);
    assert_eq!(rebuilds_for("templates"), vec![Rebuild::HtmlPages(HtmlRenderMode::Full)]);
    assert_eq!(rebuilds_for("_html"), vec![]);
}
