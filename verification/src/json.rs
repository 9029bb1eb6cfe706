use vstd::prelude::*;

verus! {

/// A JSON document, as the payload highlighter reads it. Object members keep the order in
/// which the parser handed them over; numbers keep their decimal rendering.
pub enum JsonValue {
    Null,
    Bool(bool),
    Number(String),
    String(String),
    Array(Vec<JsonValue>),
    Object(Vec<(String, JsonValue)>),
}

/// The abstract form of a `JsonValue`, with texts as character sequences.
pub enum JsonTree {
    Null,
    Bool(bool),
    Number(Seq<char>),
    Text(Seq<char>),
    Array(Seq<JsonTree>),
    Object(Seq<(Seq<char>, JsonTree)>),
}

pub open spec fn json_tree(v: JsonValue) -> JsonTree
    decreases v,
{
    match v {
        JsonValue::Null => JsonTree::Null,
        JsonValue::Bool(b) => JsonTree::Bool(b),
        JsonValue::Number(n) => JsonTree::Number(n@),
        JsonValue::String(s) => JsonTree::Text(s@),
        JsonValue::Array(a) => JsonTree::Array(
            Seq::new(a@.len(), |i: int| if 0 <= i < a@.len() { json_tree(a@[i]) } else { JsonTree::Null }),
        ),
        JsonValue::Object(m) => JsonTree::Object(
            Seq::new(
                m@.len(),
                |i: int| if 0 <= i < m@.len() { (m@[i].0@, json_tree(m@[i].1)) } else { (Seq::empty(), JsonTree::Null) },
            ),
        ),
    }
}

impl View for JsonValue {
    type V = JsonTree;

    open spec fn view(&self) -> JsonTree {
        json_tree(*self)
    }
}

/// The colour a piece of highlighted text is drawn in; `Default` is the terminal's own.
#[derive(Clone, Copy, Debug, PartialEq, Eq, Structural)]
pub enum SpanColor {
    Default,
    Green,
    Cyan,
    Magenta,
    DarkGray,
    Yellow,
    Red,
}

/// A piece of text drawn in one colour.
pub struct StyledSpan {
    pub text: String,
    pub color: SpanColor,
}

/// One line of output, made of spans drawn side by side.
pub struct StyledLine {
    pub spans: Vec<StyledSpan>,
}

pub open spec fn span_view(s: StyledSpan) -> (Seq<char>, SpanColor) {
    (s.text@, s.color)
}

pub open spec fn spans_view(v: Seq<StyledSpan>) -> Seq<(Seq<char>, SpanColor)> {
    Seq::new(v.len(), |i: int| span_view(v[i]))
}

pub open spec fn line_view(l: StyledLine) -> Seq<(Seq<char>, SpanColor)> {
    spans_view(l.spans@)
}

pub open spec fn lines_view(v: Seq<StyledLine>) -> Seq<Seq<(Seq<char>, SpanColor)>> {
    Seq::new(v.len(), |i: int| line_view(v[i]))
}

/// Two spaces per level of indentation.
pub open spec fn pad(n: nat) -> Seq<char>
    decreases n,
{
    if n == 0 {
        Seq::empty()
    } else {
        pad((n - 1) as nat) + "  "@
    }
}

/// `s` between double quotes.
pub open spec fn quoted(s: Seq<char>) -> Seq<char> {
    "\""@ + s + "\""@
}

pub open spec fn is_container(v: JsonTree) -> bool {
    v is Array || v is Object
}

/// The single span that shows a value that is not an array or an object.
pub open spec fn scalar_view(v: JsonTree) -> (Seq<char>, SpanColor) {
    match v {
        JsonTree::Text(s) => (quoted(s), SpanColor::Green),
        JsonTree::Number(n) => (n, SpanColor::Cyan),
        JsonTree::Bool(b) => (if b { "true"@ } else { "false"@ }, SpanColor::Magenta),
        JsonTree::Null => ("null"@, SpanColor::DarkGray),
        _ => (""@, SpanColor::Default),
    }
}

/// The separator after item `i` of `len` items: a comma, except after the last.
pub open spec fn comma(i: int, len: int) -> Seq<char> {
    if i < len - 1 {
        ","@
    } else {
        ""@
    }
}

/// `sub` with `prefix` put in front of its first line and `suffix` after its last.
pub open spec fn nested(
    sub: Seq<Seq<(Seq<char>, SpanColor)>>,
    prefix: Seq<(Seq<char>, SpanColor)>,
    suffix: (Seq<char>, SpanColor),
) -> Seq<Seq<(Seq<char>, SpanColor)>> {
    let first = sub.update(0, prefix + sub[0]);
    first.update(first.len() - 1, first[first.len() - 1].push(suffix))
}

/// The lines of member `i` of an object at indentation `indent`.
pub open spec fn member_lines(m: Seq<(Seq<char>, JsonTree)>, indent: nat, i: int) -> Seq<Seq<(Seq<char>, SpanColor)>>
    decreases m, i,
{
    if 0 <= i < m.len() {
        let key_span = (pad(indent + 1) + quoted(m[i].0), SpanColor::Yellow);
        let colon = (": "@, SpanColor::Default);
        let sep = (comma(i, m.len() as int), SpanColor::Default);
        if is_container(m[i].1) {
            nested(highlight(m[i].1, indent + 1), seq![key_span, colon], sep)
        } else {
            seq![seq![key_span, colon, scalar_view(m[i].1), sep]]
        }
    } else {
        Seq::empty()
    }
}

/// The lines of the first `i` members of an object.
pub open spec fn members_upto(m: Seq<(Seq<char>, JsonTree)>, indent: nat, i: int) -> Seq<Seq<(Seq<char>, SpanColor)>>
    decreases m, i,
{
    if i <= 0 || i > m.len() {
        Seq::empty()
    } else {
        members_upto(m, indent, i - 1) + member_lines(m, indent, i - 1)
    }
}

/// The lines of element `i` of an array at indentation `indent`.
pub open spec fn element_lines(a: Seq<JsonTree>, indent: nat, i: int) -> Seq<Seq<(Seq<char>, SpanColor)>>
    decreases a, i,
{
    if 0 <= i < a.len() {
        let pad_span = (pad(indent + 1), SpanColor::Default);
        let sep = (comma(i, a.len() as int), SpanColor::Default);
        if is_container(a[i]) {
            nested(highlight(a[i], indent + 1), seq![pad_span], sep)
        } else {
            seq![seq![pad_span, scalar_view(a[i]), sep]]
        }
    } else {
        Seq::empty()
    }
}

/// The lines of the first `i` elements of an array.
pub open spec fn elements_upto(a: Seq<JsonTree>, indent: nat, i: int) -> Seq<Seq<(Seq<char>, SpanColor)>>
    decreases a, i,
{
    if i <= 0 || i > a.len() {
        Seq::empty()
    } else {
        elements_upto(a, indent, i - 1) + element_lines(a, indent, i - 1)
    }
}

/// The highlighted, pretty-printed lines of `v`, its nested members indented by two spaces
/// per level below `indent`: keys yellow, strings green, numbers cyan, booleans magenta,
/// null dark gray.
pub open spec fn highlight(v: JsonTree, indent: nat) -> Seq<Seq<(Seq<char>, SpanColor)>>
    decreases v, 0int,
{
    match v {
        JsonTree::Object(m) => if m.len() == 0 {
            seq![seq![("{}"@, SpanColor::Default)]]
        } else {
            seq![seq![("{"@, SpanColor::Default)]] + members_upto(m, indent, m.len() as int)
                + seq![seq![(pad(indent) + "}"@, SpanColor::Default)]]
        },
        JsonTree::Array(a) => if a.len() == 0 {
            seq![seq![("[]"@, SpanColor::Default)]]
        } else {
            seq![seq![("["@, SpanColor::Default)]] + elements_upto(a, indent, a.len() as int)
                + seq![seq![(pad(indent) + "]"@, SpanColor::Default)]]
        },
        _ => seq![seq![scalar_view(v)]],
    }
}

/// The indentation levels that highlighting `v` at `indent` goes through, plus one, fit in a `usize`.
pub open spec fn indent_fits(v: JsonTree, indent: nat) -> bool
    decreases v,
{
    &&& indent < usize::MAX
    &&& match v {
        JsonTree::Object(m) => forall|i: int| 0 <= i < m.len() ==> indent_fits(#[trigger] m[i].1, indent + 1),
        JsonTree::Array(a) => forall|i: int| 0 <= i < a.len() ==> indent_fits(#[trigger] a[i], indent + 1),
        _ => true,
    }
}

proof fn lemma_highlight_nonempty(v: JsonTree, indent: nat)
    ensures
        highlight(v, indent).len() >= 1,
{
    match v {
        JsonTree::Object(m) => {},
        JsonTree::Array(a) => {},
        _ => {},
    }
}

/// Two spaces per level of indentation, `n` levels.
fn padding(n: usize) -> (r: String)
    ensures
        r@ == pad(n as nat),
{
    let mut r = String::new();
    let mut i: usize = 0;
    while i < n
        invariant
            i <= n,
            r@ == pad(i as nat),
        decreases n - i,
    {
        r.append("  ");
        i = i + 1;
    }
    r
}

/// `s` between double quotes.
fn quote(s: &str) -> (r: String)
    ensures
        r@ == quoted(s@),
{
    let mut r = String::from_str("\"");
    r.append(s);
    r.append("\"");
    r
}

fn plain(text: String) -> (s: StyledSpan)
    ensures
        span_view(s) == (text@, SpanColor::Default),
{
    StyledSpan { text, color: SpanColor::Default }
}

fn single_line(span: StyledSpan) -> (l: StyledLine)
    ensures
        line_view(l) == seq![span_view(span)],
{
    let mut spans = Vec::new();
    spans.push(span);
    let l = StyledLine { spans };
    assert(line_view(l) =~= seq![span_view(span)]);
    l
}

/// The span that shows a value that is not an array or an object: strings quoted in green,
/// numbers in cyan, booleans in magenta, null in dark gray, and nothing for the others.
pub fn scalar_span(value: &JsonValue) -> (s: StyledSpan)
    ensures
        span_view(s) == scalar_view(value@),
{
    match value {
        JsonValue::String(s) => StyledSpan { text: quote(s.as_str()), color: SpanColor::Green },
        JsonValue::Number(n) => StyledSpan { text: n.clone(), color: SpanColor::Cyan },
        JsonValue::Bool(b) => {
            let text = if *b {
                String::from_str("true")
            } else {
                String::from_str("false")
            };
            StyledSpan { text, color: SpanColor::Magenta }
        },
        JsonValue::Null => StyledSpan { text: String::from_str("null"), color: SpanColor::DarkGray },
        _ => StyledSpan { text: String::from_str(""), color: SpanColor::Default },
    }
}

/// `sub` with `prefix` put in front of its first line and `suffix` after its last.
fn nest(sub: Vec<StyledLine>, prefix: Vec<StyledSpan>, suffix: StyledSpan) -> (r: Vec<StyledLine>)
    requires
        sub.len() >= 1,
    ensures
        lines_view(r@) == nested(lines_view(sub@), spans_view(prefix@), span_view(suffix)),
{
    let ghost sv = lines_view(sub@);
    let mut sub = sub;
    let mut first = sub.remove(0);
    let mut spans = prefix;
    let ghost pv = spans_view(spans@);
    spans.append(&mut first.spans);
    assert(spans_view(spans@) =~= pv + sv[0]);
    sub.insert(0, StyledLine { spans });
    let ghost mid = lines_view(sub@);
    assert(mid =~= sv.update(0, pv + sv[0]));
    let last_index: usize = sub.len() - 1;
    let mut last = sub.remove(last_index);
    let ghost lv = line_view(last);
    last.spans.push(suffix);
    assert(line_view(last) =~= lv.push(span_view(suffix)));
    sub.push(last);
    assert(lines_view(sub@) =~= mid.update(mid.len() - 1, mid[mid.len() - 1].push(span_view(suffix))));
    sub
}

fn is_container_value(v: &JsonValue) -> (b: bool)
    ensures
        b == is_container(v@),
{
    match v {
        JsonValue::Array(_) => true,
        JsonValue::Object(_) => true,
        _ => false,
    }
}

/// Pretty-prints `value` with syntax colours, one member or element per line, nested levels
/// indented by two more spaces than `indent` levels.
pub fn highlight_json(value: &JsonValue, indent: usize) -> (lines: Vec<StyledLine>)
    requires
        indent_fits(value@, indent as nat),
    ensures
        lines_view(lines@) == highlight(value@, indent as nat),
    decreases value,
{
    let inner_pad = padding(indent + 1);
    let close_pad = padding(indent);
    match value {
        JsonValue::Object(map) => {
            let ghost m = match value@ {
                JsonTree::Object(m) => m,
                _ => Seq::empty(),
            };
            assert(m.len() == map@.len());
            if map.len() == 0 {
                let mut lines = Vec::new();
                lines.push(single_line(plain(String::from_str("{}"))));
                assert(lines_view(lines@) =~= highlight(value@, indent as nat));
                return lines;
            }
            let mut lines = Vec::new();
            lines.push(single_line(plain(String::from_str("{"))));
            let len: usize = map.len();
            let mut i: usize = 0;
            assert(lines_view(lines@) =~= seq![seq![("{"@, SpanColor::Default)]] + members_upto(m, indent as nat, 0));
            while i < len
                invariant
                    len == map@.len(),
                    m.len() == len,
                    m == match value@ { JsonTree::Object(m) => m, _ => Seq::empty() },
                    value@ == JsonTree::Object(m),
                    *value == JsonValue::Object(*map),
                    inner_pad@ == pad(indent as nat + 1),
                    indent_fits(value@, indent as nat),
                    i <= len,
                    lines_view(lines@) == seq![seq![("{"@, SpanColor::Default)]] + members_upto(m, indent as nat, i as int),
                decreases len - i,
            {
                assert(m[i as int] == (map@[i as int].0@, map@[i as int].1@));
                let key = &map[i].0;
                let val = &map[i].1;
                let sep: &str = if i < len - 1 {
                    ","
                } else {
                    ""
                };
                let mut key_text = inner_pad.clone();
                key_text.append(quote(key.as_str()).as_str());
                let key_span = StyledSpan { text: key_text, color: SpanColor::Yellow };
                let colon = plain(String::from_str(": "));
                let sep_span = plain(String::from_str(sep));
                let ghost before = lines_view(lines@);
                if is_container_value(val) {
                    assert(indent_fits(m[i as int].1, indent as nat + 1));
                    let sub = highlight_json(val, indent + 1);
                    proof {
                        lemma_highlight_nonempty(m[i as int].1, indent as nat + 1);
                    }
                    let ghost key_v = span_view(key_span);
                    let ghost colon_v = span_view(colon);
                    let ghost sep_v = span_view(sep_span);
                    let mut prefix = Vec::new();
                    prefix.push(key_span);
                    prefix.push(colon);
                    assert(spans_view(prefix@) =~= seq![key_v, colon_v]);
                    let mut sub = nest(sub, prefix, sep_span);
                    let ghost nested_v = lines_view(sub@);
                    assert(nested_v == nested(highlight(m[i as int].1, indent as nat + 1), seq![key_v, colon_v], sep_v));
                    assert(key_v == (pad(indent as nat + 1) + quoted(m[i as int].0), SpanColor::Yellow));
                    assert(sep_v == (comma(i as int, m.len() as int), SpanColor::Default));
                    assert(member_lines(m, indent as nat, i as int) == nested_v);
                    lines.append(&mut sub);
                    assert(lines_view(lines@) =~= before + nested_v);
                } else {
                    let ghost key_v = span_view(key_span);
                    let ghost colon_v = span_view(colon);
                    let ghost sep_v = span_view(sep_span);
                    let scalar = scalar_span(val);
                    let ghost scalar_v = span_view(scalar);
                    let mut spans = Vec::new();
                    spans.push(key_span);
                    spans.push(colon);
                    spans.push(scalar);
                    spans.push(sep_span);
                    let new_line = StyledLine { spans };
                    let ghost line_v = seq![key_v, colon_v, scalar_v, sep_v];
                    assert(line_view(new_line) =~= line_v);
                    assert(key_v == (pad(indent as nat + 1) + quoted(m[i as int].0), SpanColor::Yellow));
                    assert(sep_v == (comma(i as int, m.len() as int), SpanColor::Default));
                    assert(member_lines(m, indent as nat, i as int) == seq![line_v]);
                    lines.push(new_line);
                    assert(lines_view(lines@) =~= before + seq![line_v]);
                }
                i = i + 1;
            }
            let mut close = close_pad;
            close.append("}");
            lines.push(single_line(plain(close)));
            assert(lines_view(lines@) =~= highlight(value@, indent as nat));
            lines
        },
        JsonValue::Array(arr) => {
            let ghost a = match value@ {
                JsonTree::Array(a) => a,
                _ => Seq::empty(),
            };
            assert(a.len() == arr@.len());
            if arr.len() == 0 {
                let mut lines = Vec::new();
                lines.push(single_line(plain(String::from_str("[]"))));
                assert(lines_view(lines@) =~= highlight(value@, indent as nat));
                return lines;
            }
            let mut lines = Vec::new();
            lines.push(single_line(plain(String::from_str("["))));
            let len: usize = arr.len();
            let mut i: usize = 0;
            assert(lines_view(lines@) =~= seq![seq![("["@, SpanColor::Default)]] + elements_upto(a, indent as nat, 0));
            while i < len
                invariant
                    len == arr@.len(),
                    a.len() == len,
                    a == match value@ { JsonTree::Array(a) => a, _ => Seq::empty() },
                    value@ == JsonTree::Array(a),
                    *value == JsonValue::Array(*arr),
                    inner_pad@ == pad(indent as nat + 1),
                    indent_fits(value@, indent as nat),
                    i <= len,
                    lines_view(lines@) == seq![seq![("["@, SpanColor::Default)]] + elements_upto(a, indent as nat, i as int),
                decreases len - i,
            {
                assert(a[i as int] == arr@[i as int]@);
                let val = &arr[i];
                let sep: &str = if i < len - 1 {
                    ","
                } else {
                    ""
                };
                let sep_span = plain(String::from_str(sep));
                let ghost before = lines_view(lines@);
                if is_container_value(val) {
                    assert(indent_fits(a[i as int], indent as nat + 1));
                    let sub = highlight_json(val, indent + 1);
                    proof {
                        lemma_highlight_nonempty(a[i as int], indent as nat + 1);
                    }
                    let pad_span = plain(inner_pad.clone());
                    let ghost pad_v = span_view(pad_span);
                    let ghost sep_v = span_view(sep_span);
                    let mut prefix = Vec::new();
                    prefix.push(pad_span);
                    assert(spans_view(prefix@) =~= seq![pad_v]);
                    let mut sub = nest(sub, prefix, sep_span);
                    let ghost nested_v = lines_view(sub@);
                    assert(sep_v == (comma(i as int, a.len() as int), SpanColor::Default));
                    assert(element_lines(a, indent as nat, i as int) == nested_v);
                    lines.append(&mut sub);
                    assert(lines_view(lines@) =~= before + nested_v);
                } else {
                    let pad_span = plain(inner_pad.clone());
                    let ghost pad_v = span_view(pad_span);
                    let ghost sep_v = span_view(sep_span);
                    let scalar = scalar_span(val);
                    let ghost scalar_v = span_view(scalar);
                    let mut spans = Vec::new();
                    spans.push(pad_span);
                    spans.push(scalar);
                    spans.push(sep_span);
                    let new_line = StyledLine { spans };
                    let ghost line_v = seq![pad_v, scalar_v, sep_v];
                    assert(line_view(new_line) =~= line_v);
                    assert(sep_v == (comma(i as int, a.len() as int), SpanColor::Default));
                    assert(element_lines(a, indent as nat, i as int) == seq![line_v]);
                    lines.push(new_line);
                    assert(lines_view(lines@) =~= before + seq![line_v]);
                }
                i = i + 1;
            }
            let mut close = close_pad;
            close.append("]");
            lines.push(single_line(plain(close)));
            assert(lines_view(lines@) =~= highlight(value@, indent as nat));
            lines
        },
        _ => {
            let mut lines = Vec::new();
            lines.push(single_line(scalar_span(value)));
            assert(lines_view(lines@) =~= highlight(value@, indent as nat));
            lines
        },
    }
}


proof fn lemma_nested_ends_with(
    sub: Seq<Seq<(Seq<char>, SpanColor)>>,
    prefix: Seq<(Seq<char>, SpanColor)>,
    suffix: (Seq<char>, SpanColor),
)
    requires
        sub.len() >= 1,
    ensures
        nested(sub, prefix, suffix).len() == sub.len(),
        nested(sub, prefix, suffix).last().last() == suffix,
{
}

/// In a highlighted array every element's block of lines ends with a `,` span, except the
/// last element's, which ends with an empty span.
pub proof fn lemma_array_commas(a: Seq<JsonTree>, indent: nat, i: int)
    requires
        0 <= i < a.len(),
    ensures
        element_lines(a, indent, i).len() >= 1,
        i < a.len() - 1 ==> element_lines(a, indent, i).last().last() == (","@, SpanColor::Default),
        i == a.len() - 1 ==> element_lines(a, indent, i).last().last() == (""@, SpanColor::Default),
{
    let sep = (comma(i, a.len() as int), SpanColor::Default);
    if is_container(a[i]) {
        lemma_highlight_nonempty(a[i], indent + 1);
        lemma_nested_ends_with(highlight(a[i], indent + 1), seq![(pad(indent + 1), SpanColor::Default)], sep);
    }
}

/// In a highlighted object every member's block of lines ends with a `,` span, except the
/// last member's, which ends with an empty span.
pub proof fn lemma_object_commas(m: Seq<(Seq<char>, JsonTree)>, indent: nat, i: int)
    requires
        0 <= i < m.len(),
    ensures
        member_lines(m, indent, i).len() >= 1,
        i < m.len() - 1 ==> member_lines(m, indent, i).last().last() == (","@, SpanColor::Default),
        i == m.len() - 1 ==> member_lines(m, indent, i).last().last() == (""@, SpanColor::Default),
{
    let sep = (comma(i, m.len() as int), SpanColor::Default);
    if is_container(m[i].1) {
        let key_span = (pad(indent + 1) + quoted(m[i].0), SpanColor::Yellow);
        let colon = (": "@, SpanColor::Default);
        lemma_highlight_nonempty(m[i].1, indent + 1);
        lemma_nested_ends_with(highlight(m[i].1, indent + 1), seq![key_span, colon], sep);
    }
}

/// The first `k` elements of an array of scalars take one line each: the padding, the
/// element, and a comma unless it is the array's last element.
proof fn lemma_flat_elements(a: Seq<JsonTree>, indent: nat, k: int)
    requires
        0 <= k <= a.len(),
        forall|j: int| 0 <= j < a.len() ==> !is_container(#[trigger] a[j]),
    ensures
        elements_upto(a, indent, k).len() == k,
        forall|j: int| 0 <= j < k ==> #[trigger] elements_upto(a, indent, k)[j] == seq![
            (pad(indent + 1), SpanColor::Default),
            scalar_view(a[j]),
            (if j < a.len() - 1 { ","@ } else { ""@ }, SpanColor::Default),
        ],
    decreases k,
{
    if k > 0 {
        lemma_flat_elements(a, indent, k - 1);
        assert(!is_container(a[k - 1]));
        let prev = elements_upto(a, indent, k - 1);
        let last = element_lines(a, indent, k - 1);
        assert(elements_upto(a, indent, k) == prev + last);
        assert forall|j: int| 0 <= j < k implies #[trigger] elements_upto(a, indent, k)[j] == seq![
            (pad(indent + 1), SpanColor::Default),
            scalar_view(a[j]),
            (if j < a.len() - 1 { ","@ } else { ""@ }, SpanColor::Default),
        ] by {
            if j < k - 1 {
                assert(elements_upto(a, indent, k)[j] == prev[j]);
            } else {
                assert(elements_upto(a, indent, k)[j] == last[0]);
            }
        }
    }
}

/// A non-empty array of scalars is highlighted as `[`, then one line per element (padded one
/// level deeper, followed by a comma except for the last), then the padded `]`.
pub proof fn lemma_flat_array_lines(a: Seq<JsonTree>, indent: nat)
    requires
        a.len() > 0,
        forall|j: int| 0 <= j < a.len() ==> !is_container(#[trigger] a[j]),
    ensures
        highlight(JsonTree::Array(a), indent).len() == a.len() + 2,
        highlight(JsonTree::Array(a), indent)[0] == seq![("["@, SpanColor::Default)],
        forall|j: int| 0 <= j < a.len() ==> #[trigger] highlight(JsonTree::Array(a), indent)[j + 1] == seq![
            (pad(indent + 1), SpanColor::Default),
            scalar_view(a[j]),
            (if j < a.len() - 1 { ","@ } else { ""@ }, SpanColor::Default),
        ],
        highlight(JsonTree::Array(a), indent)[a.len() + 1int] == seq![(pad(indent) + "]"@, SpanColor::Default)],
{
    lemma_flat_elements(a, indent, a.len() as int);
    let h = highlight(JsonTree::Array(a), indent);
    let body = elements_upto(a, indent, a.len() as int);
    assert(h == seq![seq![("["@, SpanColor::Default)]] + body + seq![seq![(pad(indent) + "]"@, SpanColor::Default)]]);
    assert forall|j: int| 0 <= j < a.len() implies #[trigger] h[j + 1] == body[j] by {}
}

} // verus!
