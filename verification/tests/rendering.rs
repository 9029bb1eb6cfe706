use rmqtty::json::{highlight_json, JsonValue, SpanColor, StyledLine};
use rmqtty::mqtt::{Message, Timestamp};
use rmqtty::topic::TopicNodeFlat;
use rmqtty::app::App;
use rmqtty::ui::{clock_string, format_payload, message_lines, message_panel, status_color, status_line, topic_line};

fn render(lines: &[StyledLine]) -> Vec<Vec<(String, SpanColor)>> {
    lines.iter().map(|l| l.spans.iter().map(|s| (s.text.clone(), s.color)).collect()).collect()
}

fn texts(lines: &[StyledLine]) -> Vec<String> {
    lines.iter().map(|l| l.spans.iter().map(|s| s.text.as_str()).collect::<String>()).collect()
}

fn s(x: &str) -> String {
    x.to_string()
}

#[test]
fn scalars_take_one_line() {
    let d = SpanColor::Default;
    assert_eq!(render(&highlight_json(&JsonValue::Null, 0)), vec![vec![(s("null"), SpanColor::DarkGray)]]);
    assert_eq!(render(&highlight_json(&JsonValue::Bool(true), 0)), vec![vec![(s("true"), SpanColor::Magenta)]]);
    assert_eq!(render(&highlight_json(&JsonValue::Bool(false), 3)), vec![vec![(s("false"), SpanColor::Magenta)]]);
    assert_eq!(render(&highlight_json(&JsonValue::Number(s("1.5")), 0)), vec![vec![(s("1.5"), SpanColor::Cyan)]]);
    assert_eq!(render(&highlight_json(&JsonValue::String(s("hi")), 0)), vec![vec![(s("\"hi\""), SpanColor::Green)]]);
    assert_eq!(render(&highlight_json(&JsonValue::Object(vec![]), 0)), vec![vec![(s("{}"), d)]]);
    assert_eq!(render(&highlight_json(&JsonValue::Array(vec![]), 2)), vec![vec![(s("[]"), d)]]);
}

#[test]
fn object_members_are_indented_with_commas() {
    let v = JsonValue::Object(vec![
        (s("a"), JsonValue::Number(s("1"))),
        (s("b"), JsonValue::Array(vec![JsonValue::Bool(true), JsonValue::Object(vec![(s("c"), JsonValue::Null)])])),
        (s("d"), JsonValue::Object(vec![])),
    ]);
    let lines = highlight_json(&v, 0);
    assert_eq!(
        texts(&lines),
        vec![
            "{",
            "  \"a\": 1,",
            "  \"b\": [",
            "    true,",
            "    {",
            "      \"c\": null",
            "    }",
            "  ],",
            "  \"d\": {}",
            "}",
        ]
    );
    let d = SpanColor::Default;
    assert_eq!(
        render(&lines)[1],
        vec![(s("  \"a\""), SpanColor::Yellow), (s(": "), d), (s("1"), SpanColor::Cyan), (s(","), d)]
    );
    assert_eq!(render(&lines)[2], vec![(s("  \"b\""), SpanColor::Yellow), (s(": "), d), (s("["), d)]);
    assert_eq!(render(&lines)[8], vec![(s("  \"d\""), SpanColor::Yellow), (s(": "), d), (s("{}"), d), (s(""), d)]);
}

#[test]
fn nested_at_deeper_indent() {
    let v = JsonValue::Array(vec![JsonValue::String(s("x"))]);
    assert_eq!(texts(&highlight_json(&v, 2)), vec!["[", "      \"x\"", "    ]"]);
}

#[test]
fn raw_payload_when_not_json() {
    let lines = format_payload("not json");
    assert_eq!(render(&lines), vec![vec![(s("not json"), SpanColor::Default)]]);
    assert_eq!(render(&format_payload("7")), vec![vec![(s("7"), SpanColor::Cyan)]]);
    assert_eq!(render(&format_payload("{")), vec![vec![(s("{"), SpanColor::Default)]]);
}

#[test]
fn raw_payload_lines_become_spans_without_breaks() {
    let d = SpanColor::Default;
    assert_eq!(render(&format_payload("a\r\nb\n")), vec![vec![(s("a"), d), (s("b"), d)]]);
    assert_eq!(render(&format_payload("one\n\ntwo")), vec![vec![(s("one"), d), (s(""), d), (s("two"), d)]]);
    assert_eq!(render(&format_payload("x\r")), vec![vec![(s("x\r"), d)]]);
    assert_eq!(format_payload("").len(), 1);
    assert!(format_payload("").get(0).unwrap().spans.is_empty());
    for text in ["a\r\nb\n", "one\n\ntwo", "x\r", "", "\n", "\r\n\r\n", "no breaks"] {
        let mine: Vec<String> = format_payload(text)[0].spans.iter().map(|sp| sp.text.clone()).collect();
        let std: Vec<String> = text.lines().map(|l| l.to_string()).collect();
        assert_eq!(mine, std, "{:?}", text);
    }
}

#[test]
fn message_panel_shows_newest_of_selected_topic() {
    let mut app = App::new();
    assert!(message_panel(&app).is_empty());
    let m = |p: &str| Message { topic: s("t/u"), payload: s(p), ts: Timestamp { hour: 4, minute: 5, second: 6 } };
    app.on_message(m("first"));
    app.on_message(m("second"));
    assert!(message_panel(&app).is_empty());
    app.on_enter();
    app.on_down(2);
    assert_eq!(texts(&message_panel(&app)), vec![" 04:05:06", "", "second"]);
    app.selected = 5;
    assert!(message_panel(&app).is_empty());
}

#[test]
fn json_payload_is_parsed_and_pretty_printed() {
    let lines = format_payload("{\"b\": [1.5, \"x\"], \"a\": null}");
    assert_eq!(texts(&lines), vec!["{", "  \"a\": null,", "  \"b\": [", "    1.5,", "    \"x\"", "  ]", "}"]);
    assert_eq!(render(&lines)[1][2], (s("null"), SpanColor::DarkGray));
    assert_eq!(render(&lines)[4][1], (s("\"x\""), SpanColor::Green));
}

#[test]
fn status_bar_text_and_colour() {
    assert_eq!(status_line(true, 42), " Status: Connected  |  Messages: 42");
    assert_eq!(status_line(false, 0), " Status: Disconnected  |  Messages: 0");
    assert_eq!(status_color(true), SpanColor::Green);
    assert_eq!(status_color(false), SpanColor::Red);
}

fn flat(depth: usize, expanded: bool, has_children: bool) -> TopicNodeFlat {
    TopicNodeFlat { depth, label: s("home"), has_children, expanded, message_count: 12, sub_topic_count: 42 }
}

#[test]
fn topic_lines() {
    assert_eq!(topic_line(&flat(0, false, true)), " ▶ home | (12 msgs, 42 topics)");
    assert_eq!(topic_line(&flat(2, true, true)), "   ▼ home | (12 msgs, 42 topics)");
    assert_eq!(topic_line(&flat(1, true, false)), "  · home | (12 msgs, 42 topics)");
}

#[test]
fn clock_is_zero_padded() {
    assert_eq!(clock_string(Timestamp { hour: 9, minute: 5, second: 0 }), "09:05:00");
    assert_eq!(clock_string(Timestamp { hour: 23, minute: 59, second: 10 }), "23:59:10");
}

#[test]
fn message_panel_has_time_blank_and_payload() {
    let m = Message { topic: s("t"), payload: s("{\"k\":true}"), ts: Timestamp { hour: 1, minute: 2, second: 3 } };
    let lines = message_lines(&m);
    assert_eq!(render(&lines)[0], vec![(s(" 01:02:03"), SpanColor::DarkGray)]);
    assert!(lines[1].spans.is_empty());
    assert_eq!(texts(&lines)[2..].to_vec(), vec!["{", "  \"k\": true", "}"]);
}
