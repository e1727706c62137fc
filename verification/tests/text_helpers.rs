use vfd::text_helpers::{
    markdown, render_date, slug_from_ascii, slugify, smartypants, spread_star_rating,
    star_rating, strip_paragraphs,
};

#[test]
fn test_star_rating() {
    assert_eq!(star_rating(1), "★☆☆☆☆");
    assert_eq!(star_rating(2), "★★☆☆☆");
    assert_eq!(star_rating(3), "★★★☆☆");
    assert_eq!(star_rating(4), "★★★★☆");
    assert_eq!(star_rating(5), "★★★★★");
}

#[test]
fn star_ratings_at_the_edges() {
    assert_eq!(star_rating(0), "☆☆☆☆☆");
    assert_eq!(star_rating(5).chars().count(), 5);
}

#[test]
fn spread_star_ratings_have_a_space_after_each_star() {
    assert_eq!(spread_star_rating(2), "★ ★ ☆ ☆ ☆ ");
    assert_eq!(spread_star_rating(0), "☆ ☆ ☆ ☆ ☆ ");
    assert_eq!(spread_star_rating(5), "★ ★ ★ ★ ★ ");
}

#[test]
fn test_render_date() {
    assert_eq!(render_date("2002-01"), "January 2002");
    assert_eq!(render_date("2003-05-01"), "1 May 2003");
    assert_eq!(render_date("2004-06-17"), "17 June 2004");
}

#[test]
fn render_date_accepts_other_decimal_digits() {
    assert_eq!(render_date("２００２-01"), "January ２００２");
    assert_eq!(render_date("２００３-05-０１"), "０１ May ２００３");
    assert_eq!(render_date("٢٠٠٤-06-07"), "7 June ٢٠٠٤");
}

#[test]
fn render_date_for_every_month() {
    let months = [
        "January", "February", "March", "April", "May", "June", "July", "August",
        "September", "October", "November", "December",
    ];
    for (i, name) in months.iter().enumerate() {
        let date = format!("2022-{:02}-20", i + 1);
        assert_eq!(render_date(&date), format!("20 {} 2022", name));
    }
    assert_eq!(render_date("2022-12-00"), " December 2022");
}

#[test]
fn markdown_renders_paragraphs_and_emphasis() {
    assert_eq!(markdown("Hello *world*"), "<p>Hello <em>world</em></p>\n");
}

#[test]
fn smartypants_gives_inline_html() {
    assert_eq!(smartypants("Hello *world*"), "Hello <em>world</em>");
    assert_eq!(smartypants("It's \"here\""), "It’s “here”");
}

#[test]
fn strip_paragraphs_removes_tags_and_trims() {
    assert_eq!(strip_paragraphs("  <p>a</p>\n<p>b</p>\n"), "a\nb");
    assert_eq!(strip_paragraphs("<<p>p>x"), "<p>x");
}

#[test]
fn ascii_title_with_spaces() {
    assert_eq!("on-the-origin-of-species", slugify("On the Origin of Species"));
}

#[test]
fn slugs_replace_punctuation_and_transliterate() {
    assert_eq!(slugify("Hello, World."), "hello-world-");
    assert_eq!(slugify("Æneid: a poem"), "aeneid-a-poem");
    assert_eq!(slugify("The Lion — the Witch / the Wardrobe"), "the-lion-the-witch-the-wardrobe");
    assert_eq!(slugify("Don't Panic!"), "dont-panic");
}

#[test]
fn a_slug_is_its_own_slug() {
    let s = slugify("Piranesi: A Novel (2020)");
    assert_eq!(s, "piranesi-a-novel-2020");
    assert_eq!(slugify(&s), s);
    assert_eq!(slug_from_ascii(&s), s);
}
