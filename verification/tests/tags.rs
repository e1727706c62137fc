use vfd::models::{Book, Cover, DerivedCoverInfo, Review};
use vfd::tags::{get_used_tags, update_based_on_input, TagCompleter};

fn known(tags: &[&str]) -> Vec<String> {
    tags.iter().map(|t| t.to_string()).collect()
}

fn completer() -> TagCompleter {
    TagCompleter::new(known(&["adventure", "action", "mystery", "romance", "scifi"]))
}

#[test]
fn it_offers_all_options_initially() {
    let mut ac = completer();

    let suggestions = ac.get_suggestions("").unwrap();

    assert_eq!(
        suggestions,
        vec!["adventure", "action", "mystery", "romance", "scifi"]
    );
}

#[test]
fn it_offers_all_options_with_a_matching_substring() {
    let mut ac = completer();

    let suggestions = ac.get_suggestions("s").unwrap();

    assert_eq!(suggestions, vec!["mystery", "scifi"]);
}

#[test]
fn it_only_offers_unused_options() {
    let mut ac = completer();

    let suggestions = ac.get_suggestions("scifi s").unwrap();

    assert_eq!(suggestions, vec!["mystery"]);
}

#[test]
fn it_offers_no_options_if_no_matches() {
    let mut ac = completer();

    let suggestions = ac.get_suggestions("scifi z").unwrap();

    assert_eq!(suggestions.len(), 0);

    let mut ac = completer();

    let suggestions = ac.get_suggestions("z").unwrap();

    assert_eq!(suggestions.len(), 0);
}

#[test]
fn suggestions_after_a_space_are_sorted_and_unused() {
    let mut ac = completer();
    let suggestions = ac.get_suggestions("scifi ").unwrap();
    assert_eq!(suggestions, vec!["action", "adventure", "mystery", "romance"]);
}

#[test]
fn at_most_fifteen_suggestions_are_offered() {
    let tags: Vec<String> = (0..20).map(|i| format!("tag{:02}", 19 - i)).collect();
    let mut ac = TagCompleter::new(tags);
    let suggestions = ac.get_suggestions("t").unwrap();
    assert_eq!(suggestions.len(), 15);
    // the first fifteen tags known, in sorted order
    let expected: Vec<String> = (5..20).map(|i| format!("tag{:02}", i)).collect();
    assert_eq!(suggestions, expected);
}

#[test]
fn a_selected_completion_replaces_the_current_word() {
    let mut ac = completer();
    let completion = ac
        .get_completion("scifi my", Some("mystery".to_string()))
        .unwrap();
    assert_eq!(completion, Some("scifi mystery ".to_string()));
}

#[test]
fn the_first_suggestion_is_the_default_completion() {
    let mut ac = completer();
    assert_eq!(ac.get_completion("adv", None).unwrap(), Some("adventure ".to_string()));

    let mut ac = completer();
    assert_eq!(ac.get_completion("scifi ", None).unwrap(), Some("scifi action ".to_string()));

    let mut ac = completer();
    assert_eq!(ac.get_completion("", None).unwrap(), Some("adventure ".to_string()));
}

#[test]
fn no_completion_without_suggestions() {
    let mut ac = completer();
    assert_eq!(ac.get_completion("zzz", None).unwrap(), None);
}

#[test]
fn update_is_the_same_as_asking_for_suggestions() {
    let mut a = completer();
    let mut b = completer();
    update_based_on_input(&mut a, "action m");
    let expected = b.get_suggestions("action m").unwrap();
    assert_eq!(a.get_suggestions("action m").unwrap(), expected);
    assert_eq!(expected, vec!["mystery", "romance"]);
}

fn review(tags: Option<&[&str]>) -> Review {
    Review {
        book: Book {
            author: Some("Susanna Clarke".to_string()),
            narrator: None,
            editor: None,
            retold_by: None,
            translated_by: None,
            illustrator: None,
            cover: Cover { name: "piranesi.jpg".to_string(), tint_color: "#916540".to_string() },
            title: "Piranesi".to_string(),
            publication_year: 2020,
            series: None,
            isbn10: None,
            isbn13: None,
            tags: tags.map(known),
        },
        review: None,
        text: String::new(),
        slug: "piranesi".to_string(),
        path: "reviews/piranesi.md".to_string(),
        derived_cover_info: DerivedCoverInfo { width: 100, height: 150 },
    }
}

#[test]
fn used_tags_are_collected_once_each() {
    let reviews = vec![
        review(Some(&["fantasy", "mystery"])),
        review(None),
        review(Some(&["mystery", "scifi"])),
    ];
    let mut used = get_used_tags(&reviews);
    used.sort();
    assert_eq!(used, vec!["fantasy", "mystery", "scifi"]);
}
