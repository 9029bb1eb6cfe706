use serde_json::Value;
use vstd::prelude::*;

use crate::json::{highlight, highlight_json, indent_fits, line_view, lines_view, spans_view, JsonTree, JsonValue, SpanColor, StyledLine, StyledSpan};
use crate::mqtt::{Message, Timestamp};
use crate::text::{decimal, decimal_string, lemma_spaces, lines_of, spaces, spaces_string, split_lines};
use crate::app::App;
use crate::topic::{rows, TopicNodeFlat, TopicTree};

verus! {

#[verifier::external_type_specification]
#[verifier::external_body]
pub struct ExJsonValue(Value);

/// The text of the status bar.
pub open spec fn status_text(connected: bool, message_count: u64) -> Seq<char> {
    " Status: "@ + (if connected {
        "Connected"@
    } else {
        "Disconnected"@
    }) + "  |  Messages: "@ + decimal(message_count as nat)
}

/// The status bar: whether the broker is connected and how many messages arrived.
pub fn status_line(connected: bool, message_count: u64) -> (s: String)
    ensures
        s@ == status_text(connected, message_count),
{
    let mut s = String::from_str(" Status: ");
    if connected {
        s.append("Connected");
    } else {
        s.append("Disconnected");
    }
    s.append("  |  Messages: ");
    s.append(decimal_string(message_count).as_str());
    s
}

/// The status bar is green while connected and red otherwise.
pub fn status_color(connected: bool) -> (c: SpanColor)
    ensures
        c == (if connected {
            SpanColor::Green
        } else {
            SpanColor::Red
        }),
{
    if connected {
        SpanColor::Green
    } else {
        SpanColor::Red
    }
}

/// The marker in front of a listed topic: open or closed where it has sub-topics, a dot otherwise.
pub open spec fn indicator(expanded: bool, has_children: bool) -> Seq<char> {
    if !has_children {
        "·"@
    } else if expanded {
        "▼"@
    } else {
        "▶"@
    }
}

/// The text of one line of the topic listing.
pub open spec fn topic_text(node: TopicNodeFlat) -> Seq<char> {
    " "@ + spaces(node.depth as nat) + indicator(node.expanded, node.has_children) + " "@ + node.label@ + " | ("@
        + decimal(node.message_count as nat) + " msgs, "@ + decimal(node.sub_topic_count as nat) + " topics)"@
}

/// A listed line starts with a space and one more space per level of depth, then the marker:
/// `·` exactly for a topic without sub-topics, whatever its flag; `▼` for one with sub-topics
/// that is expanded; `▶` for one with sub-topics that is folded. A space and the name follow.
pub proof fn lemma_topic_marker(f: TopicNodeFlat)
    ensures
        topic_text(f).len() > f.depth + 2 + f.label@.len(),
        forall|i: int| 0 <= i <= f.depth ==> #[trigger] topic_text(f)[i] == ' ',
        (topic_text(f)[f.depth + 1] == '·') <==> !f.has_children,
        (topic_text(f)[f.depth + 1] == '▼') <==> (f.has_children && f.expanded),
        (topic_text(f)[f.depth + 1] == '▶') <==> (f.has_children && !f.expanded),
        topic_text(f)[f.depth + 2] == ' ',
        topic_text(f).subrange(f.depth + 3, f.depth + 3 + f.label@.len()) == f.label@,
{
    reveal_strlit(" ");
    reveal_strlit("·");
    reveal_strlit("▼");
    reveal_strlit("▶");
    lemma_spaces(f.depth as nat);
    let head = " "@ + spaces(f.depth as nat) + indicator(f.expanded, f.has_children) + " "@;
    assert(head.len() == f.depth + 3);
    let t = topic_text(f);
    assert(t == head + f.label@ + (" | ("@ + decimal(f.message_count as nat) + " msgs, "@ + decimal(f.sub_topic_count as nat) + " topics)"@)) by {
        assert(t =~= head + f.label@ + (" | ("@ + decimal(f.message_count as nat) + " msgs, "@ + decimal(f.sub_topic_count as nat) + " topics)"@));
    }
    reveal_strlit(" | (");
    assert forall|i: int| 0 <= i <= f.depth implies #[trigger] t[i] == ' ' by {
        assert(t[i] == head[i]);
        if i > 0 {
            assert(head[i] == spaces(f.depth as nat)[i - 1]);
        }
    }
    assert(t[f.depth + 1] == head[f.depth + 1]);
    assert(t[f.depth + 2] == head[f.depth + 2]);
    assert(t.subrange(f.depth + 3, f.depth + 3 + f.label@.len()) =~= f.label@);
}

/// One line of the topic listing: indentation by depth, the marker, the name, and the counts.
pub fn topic_line(node: &TopicNodeFlat) -> (s: String)
    ensures
        s@ == topic_text(*node),
{
    let mut s = String::from_str(" ");
    s.append(spaces_string(node.depth).as_str());
    let marker: &str = if !node.has_children {
        "·"
    } else if node.expanded {
        "▼"
    } else {
        "▶"
    };
    s.append(marker);
    s.append(" ");
    s.append(node.label.as_str());
    s.append(" | (");
    s.append(decimal_string(node.message_count).as_str());
    s.append(" msgs, ");
    s.append(decimal_string(node.sub_topic_count).as_str());
    s.append(" topics)");
    s
}

/// A clock field in two digits at least.
pub open spec fn two_digits(n: u8) -> Seq<char> {
    if n < 10 {
        "0"@ + decimal(n as nat)
    } else {
        decimal(n as nat)
    }
}

/// The time of day as hours, minutes and seconds, as `%H:%M:%S` writes it.
pub open spec fn clock_text(ts: Timestamp) -> Seq<char> {
    two_digits(ts.hour) + ":"@ + two_digits(ts.minute) + ":"@ + two_digits(ts.second)
}

fn two_digit_string(n: u8) -> (s: String)
    ensures
        s@ == two_digits(n),
{
    let mut s = String::new();
    if n < 10 {
        s.append("0");
    }
    s.append(decimal_string(n as u64).as_str());
    assert(s@ =~= two_digits(n));
    s
}

/// The time of day at which a message arrived.
pub fn clock_string(ts: Timestamp) -> (s: String)
    ensures
        s@ == clock_text(ts),
{
    let mut s = two_digit_string(ts.hour);
    s.append(":");
    s.append(two_digit_string(ts.minute).as_str());
    s.append(":");
    s.append(two_digit_string(ts.second).as_str());
    s
}

/// What serde_json makes of a payload as a JSON document, if it accepts it.
pub uninterp spec fn parsed_json(payload: Seq<char>) -> Option<JsonTree>;

/// `serde_json::from_str::<serde_json::Value>` on the payload, the document handed over in
/// the library's terms. A document it accepts is nested at most 128 levels deep (its
/// recursion limit), so every indentation while highlighting it fits in a `usize`.
#[verifier::external_body]
fn parse_json(payload: &str) -> (r: Option<JsonValue>)
    ensures
        match r {
            Some(v) => parsed_json(payload@) == Some(v@) && indent_fits(v@, 0),
            None => parsed_json(payload@) is None,
        },
{
    serde_json::from_str::<Value>(payload).ok().map(|v| json_from_value(&v))
}

/// A serde_json document as a `JsonValue`, member by member and element by element; numbers
/// keep serde_json's decimal rendering.
#[verifier::external_body]
fn json_from_value(v: &Value) -> JsonValue {
    match v {
        Value::Null => JsonValue::Null,
        Value::Bool(b) => JsonValue::Bool(*b),
        Value::Number(n) => JsonValue::Number(n.to_string()),
        Value::String(s) => JsonValue::String(s.clone()),
        Value::Array(a) => JsonValue::Array(a.iter().map(json_from_value).collect()),
        Value::Object(m) => JsonValue::Object(m.iter().map(|(k, x)| (k.clone(), json_from_value(x))).collect()),
    }
}

/// The raw text of a payload on one line: one plain span per line of the text, the line
/// breaks left out.
pub open spec fn raw_line(payload: Seq<char>) -> Seq<(Seq<char>, SpanColor)> {
    Seq::new(lines_of(payload).len(), |i: int| (lines_of(payload)[i], SpanColor::Default))
}

/// The lines that show a payload: highlighted JSON where serde_json accepts it, else the raw
/// text on one line.
pub open spec fn payload_lines(payload: Seq<char>) -> Seq<Seq<(Seq<char>, SpanColor)>> {
    match parsed_json(payload) {
        Some(t) => highlight(t, 0),
        None => seq![raw_line(payload)],
    }
}

/// Shows a payload: pretty-printed and highlighted where it is JSON, as it is otherwise.
pub fn format_payload(payload: &str) -> (lines: Vec<StyledLine>)
    ensures
        lines_view(lines@) == payload_lines(payload@),
{
    match parse_json(payload) {
        Some(v) => highlight_json(&v, 0),
        None => {
            let parts = split_lines(payload);
            let mut spans: Vec<StyledSpan> = Vec::new();
            let mut i: usize = 0;
            while i < parts.len()
                invariant
                    i <= parts@.len(),
                    parts@.len() == lines_of(payload@).len(),
                    forall|j: int| 0 <= j < parts@.len() ==> #[trigger] parts@[j]@ == lines_of(payload@)[j],
                    spans@.len() == i,
                    spans_view(spans@) =~= raw_line(payload@).take(i as int),
                decreases parts.len() - i,
            {
                let ghost before = spans@;
                let text = parts[i].clone();
                assert(text@ == lines_of(payload@)[i as int]);
                spans.push(StyledSpan { text, color: SpanColor::Default });
                assert(spans_view(spans@) =~= spans_view(before).push((lines_of(payload@)[i as int], SpanColor::Default)));
                assert(raw_line(payload@).take(i + 1) =~= raw_line(payload@).take(i as int).push(raw_line(payload@)[i as int]));
                i = i + 1;
            }
            assert(raw_line(payload@).take(i as int) =~= raw_line(payload@));
            let line = StyledLine { spans };
            let mut lines = Vec::new();
            lines.push(line);
            assert(lines_view(lines@) =~= seq![raw_line(payload@)]);
            lines
        },
    }
}

/// The lines of the message panel for `msg`: when it arrived, an empty line, then its payload.
pub open spec fn message_view(msg: Message) -> Seq<Seq<(Seq<char>, SpanColor)>> {
    seq![seq![(" "@ + clock_text(msg.ts), SpanColor::DarkGray)], Seq::empty()] + payload_lines(msg.payload@)
}

/// What the message panel shows for the topic listing `t` with line `selected` selected: the
/// newest message of the selected topic, or nothing where no topic is on that line or it
/// keeps no message.
pub open spec fn panel_view(t: TopicTree, selected: usize) -> Seq<Seq<(Seq<char>, SpanColor)>> {
    if selected < rows(t).len() && rows(t)[selected as int].node.messages.len() > 0 {
        message_view(rows(t)[selected as int].node.messages.last())
    } else {
        Seq::empty()
    }
}

/// The message panel of the explorer: the newest message of the selected topic, if any.
pub fn message_panel(app: &App) -> (lines: Vec<StyledLine>)
    ensures
        lines_view(lines@) == panel_view(app.topic_tree@, app.selected),
{
    match app.selected_node() {
        Some(node) => {
            let n: usize = node.messages.len();
            if n > 0 {
                message_lines(&node.messages[n - 1])
            } else {
                let lines = Vec::new();
                assert(lines_view(lines@) =~= Seq::<Seq<(Seq<char>, SpanColor)>>::empty());
                lines
            }
        },
        None => {
            let lines = Vec::new();
            assert(lines_view(lines@) =~= Seq::<Seq<(Seq<char>, SpanColor)>>::empty());
            lines
        },
    }
}

/// The message panel: the time the message arrived, an empty line, then its payload.
pub fn message_lines(msg: &Message) -> (lines: Vec<StyledLine>)
    ensures
        lines_view(lines@) == message_view(*msg),
{
    let mut stamp = String::from_str(" ");
    stamp.append(clock_string(msg.ts).as_str());
    let mut first = Vec::new();
    first.push(StyledSpan { text: stamp, color: SpanColor::DarkGray });
    let stamp_line = StyledLine { spans: first };
    assert(line_view(stamp_line) =~= seq![(" "@ + clock_text(msg.ts), SpanColor::DarkGray)]);
    let blank = StyledLine { spans: Vec::new() };
    assert(line_view(blank) =~= Seq::<(Seq<char>, SpanColor)>::empty());
    let mut lines = Vec::new();
    lines.push(stamp_line);
    lines.push(blank);
    let ghost head = lines_view(lines@);
    assert(head =~= seq![seq![(" "@ + clock_text(msg.ts), SpanColor::DarkGray)], Seq::empty()]);
    let mut body = format_payload(msg.payload.as_str());
    let ghost body_view = lines_view(body@);
    lines.append(&mut body);
    assert(lines_view(lines@) =~= head + body_view);
    lines
}

} // verus!
