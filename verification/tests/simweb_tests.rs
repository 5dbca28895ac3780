use simweb::WebPage;
use simweb::WebError;
use simweb::simweb::{error_response, ok_response};

struct Fixed {
    body: String,
    fail: bool,
}

impl WebPage for Fixed {
    fn main_load(&self) -> Result<String, WebError> {
        if self.fail {
            Err(WebError { reason: "nothing loads".to_string(), cause: None })
        } else {
            Ok(self.body.clone())
        }
    }

    fn content_type(&self) -> String {
        "text/html".to_string()
    }

    fn get_extra(&self) -> Option<Vec<(String, String)>> {
        Some(vec![("X-Robot".to_string(), "on".to_string())])
    }

    fn apply_specific(&self, page_map: &mut Vec<(String, String)>) -> Result<(), WebError> {
        page_map.push(("name".to_string(), "ada".to_string()));
        Ok(())
    }

    fn status(&self) -> Option<(u16, String)> {
        Some((200, "OK".to_string()))
    }
}

#[test]
fn render_success_page() {
    let page = Fixed { body: "hi ${name}, theme [${theme}]".to_string(), fail: false };
    assert_eq!(
        page.render(),
        "Status: 200 OK\r\nX-Robot: on\r\nContent-type: text/html\r\n\r\nhi ada, theme []"
    );
}

#[test]
fn render_error_page() {
    let page = Fixed { body: String::new(), fail: true };
    assert_eq!(
        page.render(),
        "Status: 500 Internal Server Error\r\nContent-type: text/plain\r\n\r\nIt's because nothing loads"
    );
}

#[test]
fn error_response_with_cause() {
    let e = WebError {
        reason: "load failed".to_string(),
        cause: Some("disk gone".to_string()),
    };
    assert_eq!(
        error_response(&e),
        "Status: 500 Internal Server Error\r\nContent-type: text/plain\r\n\r\nIt's because load failed, caused by disk gone"
    );
}

#[test]
fn ok_response_without_adornments() {
    let items: Vec<(String, String)> = Vec::new();
    let out = ok_response(
        None,
        None,
        &"text/plain".to_string(),
        &"raw ${untouched}".to_string(),
        &items,
    );
    // with no substitutions to draw from, the page passes through verbatim
    assert_eq!(out, "Content-type: text/plain\r\n\r\nraw ${untouched}");
}

#[test]
fn web_error_message_text() {
    let e = WebError { reason: "r".to_string(), cause: None };
    assert_eq!(e.message(), "It's because r");
}

#[test]
fn five_xx_error_page() {
    let page = simweb::FiveXXError {};
    assert_eq!(
        page.render(),
        "Status: 500 Internal Server Error\r\nContent-type: text/plain\r\n\r\nIt's because Rust impl error"
    );
}
