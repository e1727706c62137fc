//! Serving the built site locally.
use vstd::prelude::*;
use crate::render_html::HtmlRenderMode;
use crate::strings::{chars_eq, chars_of};

verus! {

/// Where the local server listens, for each host that may be asked for: a
/// label to print and the address to bind to.  `None` for any other host.
pub fn server_address(host: &str) -> (r: Option<(&'static str, [u8; 4])>)
    ensures
        host@ == "127.0.0.1"@ ==> (r matches Some((label, ip)) && label@ == "localhost"@ && ip@
            == seq![127u8, 0, 0, 1]),
        host@ == "0.0.0.0"@ ==> (r matches Some((label, ip)) && label@ == "0.0.0.0"@ && ip@
            == seq![0u8, 0, 0, 0]),
        host@ != "127.0.0.1"@ && host@ != "0.0.0.0"@ ==> r is None,
{
    let h = chars_of(host);
    let local = chars_of("127.0.0.1");
    let any = chars_of("0.0.0.0");
    proof {
        reveal_strlit("127.0.0.1");
        reveal_strlit("0.0.0.0");
        assert("127.0.0.1"@[0] != "0.0.0.0"@[0]);
    }
    if chars_eq(&h, &local) {
        let ip: [u8; 4] = [127, 0, 0, 1];
        assert(ip@ =~= seq![127u8, 0, 0, 1]);
        Some(("localhost", ip))
    } else if chars_eq(&h, &any) {
        let ip: [u8; 4] = [0, 0, 0, 0];
        assert(ip@ =~= seq![0u8, 0, 0, 0]);
        Some(("0.0.0.0", ip))
    } else {
        None
    }
}

/// A step of rebuilding the site.
#[derive(Debug, PartialEq, Eq, Structural)]
pub enum Rebuild {
    /// Recreate the thumbnail and square cover images.
    Thumbnails,
    /// Render the HTML pages.
    HtmlPages(HtmlRenderMode),
    /// Copy the static files.
    StaticFiles,
}

/// What the local server rebuilds, in order, when something in a watched
/// folder changes: new covers need new thumbnails and then every page (the
/// cover sizes are written into the HTML); a changed review only its own
/// page; changed static files are copied again; changed templates need every
/// page.  Any other folder is not watched.
pub fn rebuilds_for(folder: &str) -> (r: Vec<Rebuild>)
    ensures
        folder@ == "covers"@ ==> r@ == seq![
            Rebuild::Thumbnails,
            Rebuild::HtmlPages(HtmlRenderMode::Full),
        ],
        folder@ == "reviews"@ ==> r@ == seq![Rebuild::HtmlPages(HtmlRenderMode::Incremental)],
        folder@ == "static"@ ==> r@ == seq![Rebuild::StaticFiles],
        folder@ == "templates"@ ==> r@ == seq![Rebuild::HtmlPages(HtmlRenderMode::Full)],
        folder@ != "covers"@ && folder@ != "reviews"@ && folder@ != "static"@ && folder@
            != "templates"@ ==> r@ == Seq::<Rebuild>::empty(),
{
    let f = chars_of(folder);
    let covers = chars_of("covers");
    let reviews = chars_of("reviews");
    let statics = chars_of("static");
    let templates = chars_of("templates");
    proof {
        reveal_strlit("covers");
        reveal_strlit("reviews");
        reveal_strlit("static");
        reveal_strlit("templates");
    }
    let mut r: Vec<Rebuild> = Vec::new();
    if chars_eq(&f, &covers) {
        r.push(Rebuild::Thumbnails);
        r.push(Rebuild::HtmlPages(HtmlRenderMode::Full));
    } else if chars_eq(&f, &reviews) {
        r.push(Rebuild::HtmlPages(HtmlRenderMode::Incremental));
    } else if chars_eq(&f, &statics) {
        r.push(Rebuild::StaticFiles);
    } else if chars_eq(&f, &templates) {
        r.push(Rebuild::HtmlPages(HtmlRenderMode::Full));
    }
    proof {
        assert("covers"@.len() == 6 && "reviews"@.len() == 7 && "static"@.len() == 6);
        assert("templates"@.len() == 9 && "covers"@[0] != "static"@[0]);
        assert("covers"@ != "reviews"@ && "covers"@ != "static"@ && "covers"@ != "templates"@);
        assert("reviews"@ != "static"@ && "reviews"@ != "templates"@);
        assert("static"@ != "templates"@);
    }
    r
}

} // verus!
