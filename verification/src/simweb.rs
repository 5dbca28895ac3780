//! Page rendering: a page supplies its body and headers through
//! [`WebPage`], and the response text is assembled — with template
//! placeholders substituted — by [`ok_response`] and [`error_response`];
//! [`WebPage::render`] drives them and is pinned to [`spec_render`].

use vstd::prelude::*;
use crate::WebError;
use crate::template::{interpolate, spec_interp_pairs, lemma_interp_pairs, pair_view, TState};

verus! {

/// The reason and optional cause an error carries, as sequences.
pub open spec fn err_view(e: &WebError) -> (Seq<char>, Option<Seq<char>>) {
    (
        e.reason@,
        match e.cause {
            Some(c) => Some(c@),
            None => None,
        },
    )
}

/// What the error page for a failed load or apply looks like.
pub open spec fn spec_error_response(reason: Seq<char>, cause: Option<Seq<char>>) -> Seq<char> {
    "Status: 500 Internal Server Error\r\nContent-type: text/plain\r\n\r\n"@ + ("It's because "@
        + reason + (match cause {
        Some(c) => ", caused by "@ + c,
        None => Seq::<char>::empty(),
    }))
}

/// The CGI error output for a page that could not be produced.
pub fn error_response(err: &WebError) -> (r: String)
    ensures
        r@ == spec_error_response(err_view(err).0, err_view(err).1),
{
    let mut r = String::new();
    r.append("Status: 500 Internal Server Error\r\nContent-type: text/plain\r\n\r\n");
    r.append(err.message().as_str());
    proof {
        assert(r@ =~= spec_error_response(err_view(err).0, err_view(err).1));
    }
    r
}

/// The header block and interpolated body of a successful page: the
/// optional status line, any extra headers, the content type, a blank
/// line, then the page with its placeholders substituted (or verbatim
/// when there are no substitutions to draw from).
pub open spec fn spec_ok_response(
    status: Option<(u16, Seq<char>)>,
    extra: Seq<(Seq<char>, Seq<char>)>,
    content_type: Seq<char>,
    page: Seq<char>,
    items: Seq<(Seq<char>, Seq<char>)>,
) -> Seq<char> {
    (match status {
        Some((code, text)) => "Status: "@ + crate::data::spec_dec(code as int) + " "@ + text
            + "\r\n"@,
        None => Seq::<char>::empty(),
    }) + spec_headers(extra) + "Content-type: "@ + content_type + "\r\n\r\n"@ + (if items.len()
        == 0 {
        page
    } else {
        spec_interp_pairs(items, page, TState::InVal, Seq::<char>::empty())
    })
}

/// Extra headers, one `name: value` line each.
pub open spec fn spec_headers(extra: Seq<(Seq<char>, Seq<char>)>) -> Seq<char>
    decreases extra.len(),
{
    if extra.len() == 0 {
        Seq::<char>::empty()
    } else {
        extra[0].0 + ": "@ + extra[0].1 + "\r\n"@ + spec_headers(extra.skip(1))
    }
}

/// Assembles the successful CGI response, per [`spec_ok_response`].
#[verifier::loop_isolation(false)]
pub fn ok_response(
    status: Option<(u16, String)>,
    extra: Option<Vec<(String, String)>>,
    content_type: &String,
    page: &String,
    items: &Vec<(String, String)>,
) -> (r: String)
    ensures
        r@ == spec_ok_response(
            match status {
                Some((code, text)) => Some((code, text@)),
                None => None::<(u16, Seq<char>)>,
            },
            match extra {
                Some(v) => pair_view(v@),
                None => Seq::<(Seq<char>, Seq<char>)>::empty(),
            },
            content_type@,
            page@,
            pair_view(items@),
        ),
{
    let mut r = String::new();
    match &status {
        Some(st) => {
            r.append("Status: ");
            r.append(crate::data::u64_dec(st.0 as u64).as_str());
            r.append(" ");
            r.append(st.1.as_str());
            r.append("\r\n");
        },
        None => {},
    }
    match &extra {
        Some(hs) => {
            let ghost hv = pair_view(hs@);
            let ghost pre0 = r@;
            let n = hs.len();
            let mut i: usize = 0;
            proof {
                assert(hv.skip(0) =~= hv);
            }
            while i < n
                invariant
                    0 <= i <= n,
                    n == hs@.len(),
                    hv == pair_view(hs@),
                    pre0 + spec_headers(hv) == r@ + spec_headers(hv.skip(i as int)),
                decreases n - i,
            {
                let ghost r0 = r@;
                proof {
                    assert(hv.skip(i as int)[0] == hv[i as int]);
                    assert(hv[i as int] == (hs@[i as int].0@, hs@[i as int].1@));
                    assert(hv.skip(i as int).skip(1) =~= hv.skip(i as int + 1));
                }
                r.append(hs[i].0.as_str());
                r.append(": ");
                r.append(hs[i].1.as_str());
                r.append("\r\n");
                proof {
                    assert(r@ =~= r0 + (hv[i as int].0 + ": "@ + hv[i as int].1 + "\r\n"@));
                    assert(pre0 + spec_headers(hv) =~= r@ + spec_headers(hv.skip(i as int + 1)));
                }
                i = i + 1;
            }
            proof {
                assert(hv.skip(n as int) =~= Seq::<(Seq<char>, Seq<char>)>::empty());
                assert(pre0 + spec_headers(hv) =~= r@);
            }
        },
        None => {},
    }
    r.append("Content-type: ");
    r.append(content_type.as_str());
    r.append("\r\n\r\n");
    if items.len() == 0 {
        r.append(page.as_str());
    } else {
        proof {
            lemma_interp_pairs(items, page@, TState::InVal, Seq::<char>::empty());
        }
        r.append(interpolate(page, items).as_str());
    }
    proof {
        assert(r@ =~= spec_ok_response(
            match status {
                Some((code, text)) => Some((code, text@)),
                None => None::<(u16, Seq<char>)>,
            },
            match extra {
                Some(v) => pair_view(v@),
                None => Seq::<(Seq<char>, Seq<char>)>::empty(),
            },
            content_type@,
            page@,
            pair_view(items@),
        ));
    }
    r
}

/// A page of the site: what it loads, how it adorns the response, and
/// the placeholder values it supplies.  Each executable method answers to
/// a spec method of the page, and [`WebPage::render`] is thereby pinned
/// to [`spec_render`]; the request layer prints what it returns.
pub trait WebPage {
    /// What the page loads: its body, or the failing error's reason and
    /// cause.  The default names an empty body; a page states its own.
    open spec fn spec_main_load(&self) -> Result<Seq<char>, (Seq<char>, Option<Seq<char>>)> {
        Ok(Seq::<char>::empty())
    }

    /// The content type the page declares.
    open spec fn spec_content_type(&self) -> Seq<char> {
        "text/html"@
    }

    /// The extra headers the page adds.
    open spec fn spec_extra(&self) -> Option<Seq<(Seq<char>, Seq<char>)>> {
        None
    }

    /// How the page extends the placeholder map, or the error stopping it.
    open spec fn spec_apply(&self, items: Seq<(Seq<char>, Seq<char>)>) -> Result<
        Seq<(Seq<char>, Seq<char>)>,
        (Seq<char>, Option<Seq<char>>),
    > {
        Ok(items)
    }

    /// The status line the page sets.
    open spec fn spec_status(&self) -> Option<(u16, Seq<char>)> {
        None
    }

    /// The page body, or the error that prevented producing it.
    fn main_load(&self) -> (r: Result<String, WebError>)
        ensures
            match self.spec_main_load() {
                Ok(p) => r matches Ok(s) && s@ == p,
                Err(msg) => r matches Err(e) && err_view(&e) == msg,
            },
    ;

    /// The response's content type.
    fn content_type(&self) -> (r: String)
        ensures
            r@ == self.spec_content_type(),
    ;

    /// Any additional headers, cookie lines included.
    fn get_extra(&self) -> (r: Option<Vec<(String, String)>>)
        ensures
            match self.spec_extra() {
                Some(entries) => r matches Some(v) && pair_view(v@) == entries,
                None => r is None,
            },
    ;

    /// Fills the placeholder values the page body draws on.
    fn apply_specific(&self, page_map: &mut Vec<(String, String)>) -> (r: Result<(), WebError>)
        ensures
            match self.spec_apply(pair_view(old(page_map)@)) {
                Ok(items) => r is Ok && pair_view(final(page_map)@) == items,
                Err(msg) => r matches Err(e) && err_view(&e) == msg,
            },
    ;

    /// An explicit status line, when the page sets one.
    fn status(&self) -> (r: Option<(u16, String)>)
        ensures
            match self.spec_status() {
                Some((code, text)) => r matches Some(p) && p.0 == code && p.1@ == text,
                None => r is None,
            },
    ;

    /// The full CGI response text — the same statement [`spec_render`]
    /// makes: the page's headers and interpolated body on success, the
    /// error page otherwise.
    fn render(&self) -> (r: String)
        ensures
            r@ == (match self.spec_main_load() {
                Err((reason, cause)) => spec_error_response(reason, cause),
                Ok(page) => match self.spec_apply(seq![("theme"@, Seq::<char>::empty())]) {
                    Err((reason, cause)) => spec_error_response(reason, cause),
                    Ok(items) => spec_ok_response(
                        self.spec_status(),
                        match self.spec_extra() {
                            Some(x) => x,
                            None => Seq::<(Seq<char>, Seq<char>)>::empty(),
                        },
                        self.spec_content_type(),
                        page,
                        items,
                    ),
                },
            }),
    {
        match self.main_load() {
            Err(e) => error_response(&e),
            Ok(page) => {
                let mut items: Vec<(String, String)> = Vec::new();
                let mut theme = String::new();
                theme.append("theme");
                items.push((theme, String::new()));
                proof {
                    assert(pair_view(items@) =~= seq![("theme"@, Seq::<char>::empty())]);
                }
                match self.apply_specific(&mut items) {
                    Err(e) => error_response(&e),
                    Ok(()) => {
                        let ct = self.content_type();
                        ok_response(self.status(), self.get_extra(), &ct, &page, &items)
                    },
                }
            },
        }
    }
}

/// The full response a page renders to: the error page when its load or
/// its placeholder filling fails, else the header block and interpolated
/// body, the substitution map seeded with an empty `theme`.
pub open spec fn spec_render<P: WebPage + ?Sized>(p: &P) -> Seq<char> {
    match p.spec_main_load() {
        Err((reason, cause)) => spec_error_response(reason, cause),
        Ok(page) => match p.spec_apply(seq![("theme"@, Seq::<char>::empty())]) {
            Err((reason, cause)) => spec_error_response(reason, cause),
            Ok(items) => spec_ok_response(
                p.spec_status(),
                match p.spec_extra() {
                    Some(x) => x,
                    None => Seq::<(Seq<char>, Seq<char>)>::empty(),
                },
                p.spec_content_type(),
                page,
                items,
            ),
        },
    }
}

} // verus!
