use domafic::events::Event;
use domafic::headers::{chars_of, find_colon, find_line_end, is_whitespace, parse_headers, trim_range};
use domafic::http::{http_result, HttpError, HttpRequest, HttpResponse, HttpSignal};

fn by_the_standard_library(text: &str) -> Vec<(&str, &str)> {
    text.split("\r\n")
        .flat_map(|header| {
            header.find(':').map(|split_index| {
                let (key, value) = header.split_at(split_index);
                (key.trim(), value[1..].trim())
            })
        })
        .collect()
}

#[test]
fn headers_are_read_line_by_line() {
    let text = "content-type: text/html\r\ncontent-length: 12\r\n";
    assert_eq!(
        parse_headers(text),
        vec![("content-type", "text/html"), ("content-length", "12")]
    );
}

#[test]
fn a_line_without_a_colon_holds_no_header() {
    assert_eq!(parse_headers("no colon here\r\nkey:value"), vec![("key", "value")]);
    assert_eq!(parse_headers(""), Vec::<(&str, &str)>::new());
    assert_eq!(parse_headers("\r\n\r\n"), Vec::<(&str, &str)>::new());
}

#[test]
fn only_the_first_colon_parts_key_and_value() {
    assert_eq!(parse_headers("date:  12:30:01 \r\n"), vec![("date", "12:30:01")]);
    assert_eq!(parse_headers(":"), vec![("", "")]);
    assert_eq!(parse_headers("  :  "), vec![("", "")]);
    assert_eq!(parse_headers("a:"), vec![("a", "")]);
    assert_eq!(parse_headers(":b"), vec![("", "b")]);
}

#[test]
fn a_lone_carriage_return_or_line_feed_ends_no_line() {
    assert_eq!(parse_headers("a: 1\rb: 2"), vec![("a", "1\rb: 2")]);
    assert_eq!(parse_headers("a: 1\nb: 2"), vec![("a", "1\nb: 2")]);
    assert_eq!(parse_headers("a: 1\r\r\nb: 2"), vec![("a", "1"), ("b", "2")]);
    assert_eq!(parse_headers("a: 1\r"), vec![("a", "1")]);
}

#[test]
fn headers_agree_with_the_standard_library() {
    let samples = [
        "",
        ":",
        "\r\n",
        "a:b",
        "a:b\r\n",
        "\r\na:b\r\n\r\nc:d",
        " key \t:\u{a0}value\u{2003}\r\nx-empty:\r\n:solo\r\nnone\r\n",
        "k\u{e9}y: v\u{e4}lue \u{1f600}\r\n\u{3000}wide\u{3000}:\u{2028}sep\u{2029}",
        "a: b\rc\r\n\nd: e\n\r\nf:g\r",
        "\u{85}x\u{85}:\u{1680}y\u{1680}\r\n\u{200b}z\u{200b}:\u{feff}w\u{feff}",
        "content-type: application/json; charset=utf-8\r\ncache-control: no-cache\r\n",
    ];
    for text in samples.iter() {
        assert_eq!(parse_headers(text), by_the_standard_library(text), "for {:?}", text);
    }
}

#[test]
fn white_space_is_what_the_standard_library_says() {
    for code in 0u32..0x3100 {
        if let Some(c) = char::from_u32(code) {
            assert_eq!(is_whitespace(c), c.is_whitespace(), "for {:?}", c);
        }
    }
    assert!(!is_whitespace('\u{feff}'));
    assert!(!is_whitespace('\u{10ffff}'));
}

#[test]
fn the_parts_of_the_reader_find_their_places() {
    let chars = chars_of("ab: c \r\nd");
    assert_eq!(chars, vec!['a', 'b', ':', ' ', 'c', ' ', '\r', '\n', 'd']);
    assert_eq!(find_line_end(&chars, 0), 6);
    assert_eq!(find_line_end(&chars, 8), 9);
    assert_eq!(find_line_end(&chars, 9), 9);
    assert_eq!(find_colon(&chars, 0, 6), 2);
    assert_eq!(find_colon(&chars, 3, 6), 6);
    assert_eq!(trim_range(&chars, 3, 6), (4, 5));
    assert_eq!(trim_range(&chars, 5, 6), (6, 6));
    assert_eq!(trim_range(&chars, 0, 2), (0, 2));
}

#[test]
fn signals_stand_for_outcomes() {
    assert_eq!(HttpSignal::from_code(0), Some(HttpSignal::Loaded));
    assert_eq!(HttpSignal::from_code(1), Some(HttpSignal::TimedOut));
    assert_eq!(HttpSignal::from_code(2), Some(HttpSignal::Failed));
    assert_eq!(HttpSignal::from_code(3), None);
    assert_eq!(HttpSignal::from_code(-1), None);

    let headers = [("a", "b")];
    let response = HttpResponse { status_code: 200, status_text: "OK", headers: &headers, body: "hi" };
    let loaded = http_result(HttpSignal::Loaded, response).unwrap();
    assert_eq!(loaded.status_code, 200);
    assert_eq!(loaded.status_text, "OK");
    assert_eq!(loaded.headers, &[("a", "b")]);
    assert_eq!(loaded.body, "hi");
    assert_eq!(http_result(HttpSignal::TimedOut, response).unwrap_err(), HttpError::Timeout);
    assert_eq!(http_result(HttpSignal::Failed, response).unwrap_err(), HttpError::NetworkError);
}

#[test]
fn a_request_without_a_timeout_has_the_timeout_zero() {
    let request = HttpRequest { method: "GET", headers: &[], url: "/", body: "", timeout_millis: None };
    assert_eq!(request.timeout_or_zero(), 0);
    let request = HttpRequest { timeout_millis: Some(1500), ..request };
    assert_eq!(request.timeout_or_zero(), 1500);
}

#[test]
fn only_the_number_one_sets_a_modifier() {
    let event = Event::from_raw(Some("keydown"), Some("milk"), 1, 2, 3, 4, 13, 1, 0, 2, -1);
    assert_eq!(
        event,
        Event {
            type_str: Some("keydown"),
            target_value: Some("milk"),
            client_x: 1,
            client_y: 2,
            offset_x: 3,
            offset_y: 4,
            which_keycode: 13,
            shift_key: true,
            alt_key: false,
            ctrl_key: false,
            meta_key: false,
        }
    );
    let event = Event::from_raw(None, None, 0, 0, 0, 0, 0, 0, 1, 1, 1);
    assert_eq!((event.shift_key, event.alt_key, event.ctrl_key, event.meta_key), (false, true, true, true));
    assert_eq!(event.type_str, None);
}
