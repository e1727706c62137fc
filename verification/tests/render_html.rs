use vfd::models::{year_read, Book, Cover, DerivedCoverInfo, Review, ReviewMetadata};
use vfd::render_html::{
    has_review_page, minify_html, order_reviews, should_write_page, slug_from_file_name, split_front_matter,
    square_offsets, stale_pages, HtmlRenderMode,
};

fn review(slug: &str, year: u16, read: Option<(&str, Option<usize>)>) -> Review {
    Review {
        book: Book {
            author: None,
            narrator: None,
            editor: None,
            retold_by: None,
            translated_by: None,
            illustrator: None,
            cover: Cover { name: format!("{}.jpg", slug), tint_color: "#000000".to_string() },
            title: slug.to_string(),
            publication_year: year,
            series: None,
            isbn10: None,
            isbn13: None,
            tags: None,
        },
        review: read.map(|(date, order)| ReviewMetadata {
            date_read: date.to_string(),
            format: None,
            rating: None,
            did_not_finish: false,
            date_order: order,
        }),
        text: String::new(),
        slug: slug.to_string(),
        path: format!("reviews/{}.md", slug),
        derived_cover_info: DerivedCoverInfo { width: 1, height: 1 },
    }
}

fn slugs(reviews: &[Review]) -> Vec<&str> {
    reviews.iter().map(|r| r.slug.as_str()).collect()
}

#[test]
fn reviews_are_listed_newest_first() {
    let reviews = vec![
        review("old-undated", 1990, None),
        review("a", 2000, Some(("2021-03-04", None))),
        review("b", 2000, Some(("2022-01-20", None))),
        review("new-undated", 2010, None),
        review("c", 2000, Some(("2021-03-04", Some(1)))),
        review("d", 2000, Some(("2021-03-04", Some(0)))),
    ];
    let ordered = order_reviews(reviews);
    assert_eq!(slugs(&ordered), vec!["b", "c", "d", "a", "new-undated", "old-undated"]);
}

#[test]
fn reviews_in_the_same_place_keep_their_order_reversed() {
    let reviews = vec![
        review("first", 2000, Some(("2021-03-04", None))),
        review("second", 2000, Some(("2021-03-04", None))),
        review("x", 1999, None),
        review("y", 1999, None),
    ];
    let ordered = order_reviews(reviews);
    assert_eq!(slugs(&ordered), vec!["second", "first", "y", "x"]);
}

#[test]
fn year_read_is_the_start_of_the_date() {
    assert_eq!(year_read(&review("a", 2000, Some(("2021-03-04", None)))), "2021");
    assert_eq!(year_read(&review("a", 2000, None)), "another time");
}

#[test]
fn pages_are_rebuilt_unless_known_to_be_fresh() {
    assert!(should_write_page(&HtmlRenderMode::Full, Some(false)));
    assert!(should_write_page(&HtmlRenderMode::Incremental, Some(true)));
    assert!(should_write_page(&HtmlRenderMode::Incremental, None));
    assert!(!should_write_page(&HtmlRenderMode::Incremental, Some(false)));
}

#[test]
fn stale_pages_are_the_ones_not_written() {
    let found = vec!["_html/index.html".to_string(), "_html/old/index.html".to_string()];
    let written = vec!["_html/index.html".to_string()];
    assert_eq!(stale_pages(&found, &written), vec!["_html/old/index.html"]);
}

#[test]
fn front_matter_is_split_from_the_text() {
    let md = "---\nbook:\n  title: Piranesi\n---\n\nThis is a weird but delightful book.\n";
    let (front, text) = split_front_matter(md).unwrap();
    assert_eq!(front, "\nbook:\n  title: Piranesi\n");
    assert_eq!(text, "\n\nThis is a weird but delightful book.\n");
    assert!(split_front_matter("no front matter").is_none());
    assert!(split_front_matter("---only one").is_none());
}

#[test]
fn review_text_keeps_its_thematic_breaks() {
    let md = "---\ntitle: x\n---\nPart one.\n\n---\n\nPart two.\n";
    let (front, text) = split_front_matter(md).unwrap();
    assert_eq!(front, "\ntitle: x\n");
    assert_eq!(text, "\nPart one.\n\n---\n\nPart two.\n");
    let (front, text) = split_front_matter("a---b---c---d---").unwrap();
    assert_eq!(front, "b");
    assert_eq!(text, "c---d---");
    assert_eq!(split_front_matter("------").unwrap(), (String::new(), String::new()));
}

#[test]
fn slugs_come_from_file_names() {
    assert_eq!(slug_from_file_name("piranesi.md"), "piranesi");
    assert_eq!(slug_from_file_name("notes.md.md"), "notes");
}

#[test]
fn covers_are_centred_in_their_square() {
    assert_eq!(square_offsets(320, 480), (80, 0));
    assert_eq!(square_offsets(480, 300), (0, 90));
    assert_eq!(square_offsets(480, 480), (0, 0));
}

#[test]
fn pages_are_minified() {
    let html = "<html>\n  <body>\n    <p>Hello</p>\n  </body>\n</html>\n";
    let minified = minify_html(html).ok().unwrap();
    assert!(minified.len() < html.len());
    assert_eq!(String::from_utf8(minified).unwrap(), "<html>\n<body>\n<p>Hello</p>\n</body>\n</html>");
}

#[test]
fn only_dated_reviews_get_a_page() {
    assert!(has_review_page(&review("a", 2001, Some(("2020-01-02", None)))));
    assert!(!has_review_page(&review("b", 2001, None)));
}
