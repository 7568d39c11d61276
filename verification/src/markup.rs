//! The hOCR-style markup model and its parser.
//!
//! The OCR engine hands back a tree of elements. An element whose classes
//! include the line marker is a recognized line; each element child of a line
//! is a word node whose `title` attribute encodes `bbox x0 y0 x1 y1; x_wconf C`
//! as space-separated fields. Coordinates arrive scaled up by the preprocessing
//! upscale factor and are divided back down here. A malformed word is a parse
//! error for that word alone: it is dropped and the rest of the document is
//! still processed. A line with no successfully parsed words is omitted.

use vstd::prelude::*;
use vstd::string::*;

use crate::geometry::PixelPoint;
use crate::words::{HocrWord, WordModel};

verus! {

/// Coordinates above this bound are treated as malformed: no real screen
/// region reaches a billion pixels.
pub const COORD_LIMIT: i64 = 1000000000;

/// The preprocessing stage upscales the captured image by this factor, so
/// reported coordinates are divided by it to recover true screen pixels.
pub const UPSCALE_FACTOR: i64 = 4;

pub open spec fn is_digit(c: char) -> bool {
    '0' <= c && c <= '9'
}

pub open spec fn digit_val(c: char) -> int {
    c as int - '0' as int
}

/// The decimal value of a sequence of digit characters.
pub open spec fn dec_value(ds: Seq<char>) -> int
    decreases ds.len(),
{
    if ds.len() == 0 {
        0
    } else {
        dec_value(ds.drop_last()) * 10 + digit_val(ds.last())
    }
}

/// The digit characters of a field, in order; everything else is dropped.
pub open spec fn digits_of(s: Seq<char>) -> Seq<char>
    decreases s.len(),
{
    if s.len() == 0 {
        Seq::empty()
    } else if is_digit(s.last()) {
        digits_of(s.drop_last()).push(s.last())
    } else {
        digits_of(s.drop_last())
    }
}

/// A numeric bbox field: its digit characters are kept (stray punctuation such
/// as a trailing semicolon is ignored), their decimal value is bounded, and
/// the upscale factor is divided out (integer division).
pub open spec fn spec_parse_coord(f: Seq<char>) -> Option<int> {
    let ds = digits_of(f);
    if ds.len() == 0 || dec_value(ds) > COORD_LIMIT {
        None
    } else {
        Some(dec_value(ds) / (UPSCALE_FACTOR as int))
    }
}

/// The confidence field: all digits, value at most 100.
pub open spec fn spec_parse_confidence(f: Seq<char>) -> Option<int> {
    if f.len() == 0 || !(forall|i: int| 0 <= i < f.len() ==> is_digit(f[i])) || dec_value(f) > 100 {
        None
    } else {
        Some(dec_value(f))
    }
}

/// Splitting a character sequence on single spaces; the result always has at
/// least one (possibly empty) field.
pub open spec fn split_spaces(s: Seq<char>) -> Seq<Seq<char>>
    decreases s.len(),
{
    if s.len() == 0 {
        seq![Seq::empty()]
    } else {
        let rest = split_spaces(s.drop_last());
        if s.last() == ' ' {
            rest + seq![Seq::empty()]
        } else {
            rest.update(rest.len() - 1, rest.last().push(s.last()))
        }
    }
}

pub proof fn lemma_split_spaces_nonempty(s: Seq<char>)
    ensures
        split_spaces(s).len() >= 1,
    decreases s.len(),
{
    if s.len() > 0 {
        lemma_split_spaces_nonempty(s.drop_last());
    }
}

/// Every character that `digits_of` keeps is a digit.
pub proof fn lemma_digits_of_digits(s: Seq<char>)
    ensures
        forall|i: int| 0 <= i < digits_of(s).len() ==> is_digit(#[trigger] digits_of(s)[i]),
    decreases s.len(),
{
    if s.len() > 0 {
        lemma_digits_of_digits(s.drop_last());
        if is_digit(s.last()) {
            let ds = digits_of(s.drop_last()).push(s.last());
            assert forall|i: int| 0 <= i < ds.len() implies is_digit(ds[i]) by {
                if i < ds.len() - 1 {
                    assert(ds[i] == digits_of(s.drop_last())[i]);
                }
            }
        }
    }
}

/// All digit values are non-negative, so decimal values are non-negative.
pub proof fn lemma_dec_value_nonneg(ds: Seq<char>)
    requires
        forall|i: int| 0 <= i < ds.len() ==> is_digit(ds[i]),
    ensures
        dec_value(ds) >= 0,
    decreases ds.len(),
{
    if ds.len() > 0 {
        assert(forall|i: int| 0 <= i < ds.drop_last().len() ==> is_digit(#[trigger] ds.drop_last()[i]));
        lemma_dec_value_nonneg(ds.drop_last());
    }
}

/// Splits a string on single spaces, exactly as `split_spaces` describes.
pub fn split_fields(s: &str) -> (r: Vec<Vec<char>>)
    ensures
        r.deep_view() == split_spaces(s@),
{
    let n = s.unicode_len();
    let mut fields: Vec<Vec<char>> = Vec::new();
    let mut cur: Vec<char> = Vec::new();
    let mut i: usize = 0;
    proof {
        assert(s@.take(0) =~= Seq::<char>::empty());
        assert(fields.deep_view().push(cur@) =~~= seq![Seq::<char>::empty()]);
    }
    while i < n
        invariant
            n == s@.len(),
            i <= n,
            fields.deep_view().push(cur@) == split_spaces(s@.take(i as int)),
        decreases n - i,
    {
        let c = s.get_char(i);
        let ghost dv0 = fields.deep_view();
        let ghost cur0 = cur@;
        proof {
            assert(s@.take(i + 1).drop_last() =~= s@.take(i as int));
            assert(s@.take(i + 1).last() == s@[i as int]);
        }
        if c == ' ' {
            fields.push(cur);
            cur = Vec::new();
            proof {
                assert(fields.deep_view() =~~= dv0.push(cur0));
                assert(fields.deep_view().push(cur@) =~~= split_spaces(s@.take(i + 1)));
            }
        } else {
            cur.push(c);
            proof {
                let prev = split_spaces(s@.take(i as int));
                assert(prev.last() == cur0);
                assert(cur@ == cur0.push(s@[i as int]));
                assert(fields.deep_view().push(cur@) =~~= prev.update(prev.len() - 1, prev.last().push(s@[i as int])));
            }
        }
        i += 1;
    }
    proof {
        assert(s@.take(n as int) =~= s@);
    }
    let ghost dv1 = fields.deep_view();
    let ghost cur1 = cur@;
    fields.push(cur);
    proof {
        assert(fields.deep_view() =~~= dv1.push(cur1));
        assert(fields.deep_view() =~~= split_spaces(s@));
    }
    fields
}

/// Parses one numeric bbox field: digits kept, bounded, scaled down.
pub fn parse_coord_field(f: &Vec<char>) -> (r: Option<i64>)
    ensures
        match spec_parse_coord(f@) {
            Some(v) => r == Some(v as i64) && 0 <= v <= COORD_LIMIT,
            None => r is None,
        },
{
    let mut value: i64 = 0;
    let mut seen: bool = false;
    let mut over: bool = false;
    let mut i: usize = 0;
    proof {
        assert(f@.take(0) =~= Seq::<char>::empty());
    }
    while i < f.len()
        invariant
            i <= f@.len(),
            seen <==> digits_of(f@.take(i as int)).len() > 0,
            !over ==> value == dec_value(digits_of(f@.take(i as int))) && 0 <= value <= COORD_LIMIT,
            over ==> dec_value(digits_of(f@.take(i as int))) > COORD_LIMIT,
        decreases f@.len() - i,
    {
        let c = f[i];
        proof {
            assert(f@.take(i + 1).drop_last() =~= f@.take(i as int));
            assert(f@.take(i + 1).last() == f@[i as int]);
            lemma_digits_of_digits(f@.take(i as int));
            lemma_dec_value_nonneg(digits_of(f@.take(i as int)));
        }
        if c >= '0' && c <= '9' {
            seen = true;
            let d = (c as u32 - '0' as u32) as i64;
            proof {
                let ds = digits_of(f@.take(i as int));
                assert(ds.push(c).drop_last() =~= ds);
                assert(ds.push(c).last() == c);
                assert(dec_value(ds.push(c)) == dec_value(ds) * 10 + digit_val(c));
                assert(digit_val(c) == d);
            }
            if over || value > (COORD_LIMIT - d) / 10 {
                proof {
                    let ds = digits_of(f@.take(i as int));
                    if !over {
                        assert((COORD_LIMIT - d) / 10 * 10 + (COORD_LIMIT - d) % 10 == COORD_LIMIT - d);
                        assert(value * 10 + d > COORD_LIMIT);
                    } else {
                        assert(dec_value(ds) * 10 >= dec_value(ds)) by (nonlinear_arith)
                            requires dec_value(ds) > 0;
                        assert(dec_value(ds.push(c)) > COORD_LIMIT);
                    }
                }
                over = true;
            } else {
                proof {
                    assert((COORD_LIMIT - d) / 10 * 10 + (COORD_LIMIT - d) % 10 == COORD_LIMIT - d);
                    assert(value * 10 + d <= COORD_LIMIT);
                }
                value = value * 10 + d;
            }
        }
        i += 1;
    }
    proof {
        assert(f@.take(f@.len() as int) =~= f@);
    }
    if !seen || over {
        None
    } else {
        Some(value / UPSCALE_FACTOR)
    }
}

/// Parses the confidence field: all digits, at most 100.
pub fn parse_confidence_field(f: &Vec<char>) -> (r: Option<u32>)
    ensures
        match spec_parse_confidence(f@) {
            Some(v) => r == Some(v as u32) && 0 <= v <= 100,
            None => r is None,
        },
{
    let mut value: u32 = 0;
    let mut i: usize = 0;
    proof {
        assert(f@.take(0) =~= Seq::<char>::empty());
    }
    while i < f.len()
        invariant
            i <= f@.len(),
            forall|j: int| 0 <= j < i ==> is_digit(f@[j]),
            value == dec_value(f@.take(i as int)),
            value <= 100,
        decreases f@.len() - i,
    {
        let c = f[i];
        proof {
            assert(f@.take(i + 1).drop_last() =~= f@.take(i as int));
            assert(f@.take(i + 1).last() == f@[i as int]);
        }
        if c >= '0' && c <= '9' {
            let d = c as u32 - '0' as u32;
            value = value * 10 + d;
            if value > 100 {
                proof {
                    lemma_conf_overflow(f@, i + 1);
                }
                return None;
            }
        } else {
            return None;
        }
        i += 1;
    }
    proof {
        assert(f@.take(f@.len() as int) =~= f@);
    }
    if f.len() == 0 {
        None
    } else {
        Some(value)
    }
}

/// A word's full parse: the title attribute must have at least seven fields
/// (`bbox`, four coordinates, `x_wconf`, confidence), the coordinates must
/// parse and be ordered, the confidence must parse, and the recognized text
/// must be non-empty. Anything else is a parse error for this word alone.
pub open spec fn spec_parse_title(title: Seq<char>, text: Seq<char>) -> Option<WordModel> {
    let fields = split_spaces(title);
    if fields.len() < 7 {
        None
    } else {
        let x0 = spec_parse_coord(fields[1]);
        let y0 = spec_parse_coord(fields[2]);
        let x1 = spec_parse_coord(fields[3]);
        let y1 = spec_parse_coord(fields[4]);
        let c = spec_parse_confidence(fields[6]);
        if x0 is None || y0 is None || x1 is None || y1 is None || c is None
            || text.len() == 0 || x0->0 > x1->0 || y0->0 > y1->0 {
            None
        } else {
            Some(WordModel {
                text,
                min: PixelPoint { x: x0->0 as i64, y: y0->0 as i64 },
                max: PixelPoint { x: x1->0 as i64, y: y1->0 as i64 },
                confidence: c->0,
            })
        }
    }
}

/// Parses one word node's title attribute together with its recognized text.
pub fn parse_word_title(title: &str, text: String) -> (r: Option<HocrWord>)
    ensures
        match spec_parse_title(title@, text@) {
            Some(m) => r is Some && r->0@ == m,
            None => r is None,
        },
        r is Some ==> r->0.wf(),
{
    let fields = split_fields(title);
    proof {
        lemma_split_spaces_nonempty(title@);
    }
    if fields.len() < 7 {
        return None;
    }
    proof {
        assert(fields.deep_view()[1] == fields@[1]@);
        assert(fields.deep_view()[2] == fields@[2]@);
        assert(fields.deep_view()[3] == fields@[3]@);
        assert(fields.deep_view()[4] == fields@[4]@);
        assert(fields.deep_view()[6] == fields@[6]@);
    }
    let x0 = match parse_coord_field(&fields[1]) {
        Some(v) => v,
        None => { return None; },
    };
    let y0 = match parse_coord_field(&fields[2]) {
        Some(v) => v,
        None => { return None; },
    };
    let x1 = match parse_coord_field(&fields[3]) {
        Some(v) => v,
        None => { return None; },
    };
    let y1 = match parse_coord_field(&fields[4]) {
        Some(v) => v,
        None => { return None; },
    };
    let conf = match parse_confidence_field(&fields[6]) {
        Some(v) => v,
        None => { return None; },
    };
    if text.unicode_len() == 0 || x0 > x1 || y0 > y1 {
        return None;
    }
    Some(HocrWord::new(text, PixelPoint::new(x0, y0), PixelPoint::new(x1, y1), conf))
}

/// If some prefix of a digit string already exceeds 100, the whole string does.
proof fn lemma_conf_overflow(f: Seq<char>, k: int)
    requires
        0 <= k <= f.len(),
        forall|j: int| 0 <= j < k ==> is_digit(f[j]),
        dec_value(f.take(k)) > 100,
    ensures
        !(forall|j: int| 0 <= j < f.len() ==> is_digit(f[j])) || dec_value(f) > 100,
    decreases f.len() - k,
{
    if k < f.len() {
        if forall|j: int| 0 <= j < f.len() ==> is_digit(f[j]) {
            let t = f.take(k + 1);
            assert(t.drop_last() =~= f.take(k));
            assert(dec_value(t) == dec_value(f.take(k)) * 10 + digit_val(f[k]));
            assert(dec_value(f.take(k)) * 10 >= dec_value(f.take(k))) by (nonlinear_arith)
                requires dec_value(f.take(k)) > 0;
            lemma_conf_overflow(f, k + 1);
        }
    } else {
        assert(f.take(k) =~= f);
    }
}

/// The markup document as this library models it: an element with its class
/// list, its optional `title` attribute, and its children, or a text node.
/// The I/O layer converts the OCR engine's document into this tree.
#[derive(Debug)]
pub enum MarkupNode {
    Element { classes: Vec<String>, title: Option<String>, children: Vec<MarkupNode> },
    Text(String),
}

/// The class marker that makes an element a recognized line.
pub open spec fn spec_line_marker() -> Seq<char> {
    "ocr_line"@
}

pub open spec fn spec_has_class(classes: Seq<String>, name: Seq<char>) -> bool {
    exists|i: int| 0 <= i < classes.len() && classes[i]@ == name
}

/// The recognized text of a word node: the first text descendant found by
/// walking first children.
pub open spec fn spec_text_child(nodes: Seq<MarkupNode>) -> Seq<char>
    decreases nodes,
{
    if nodes.len() == 0 {
        Seq::empty()
    } else {
        match nodes[0] {
            MarkupNode::Text(t) => t@,
            MarkupNode::Element { classes, title, children } => spec_text_child(children@),
        }
    }
}

/// The word a node yields, if any: an element with a title attribute whose
/// title and text parse.
pub open spec fn spec_word_of_node(n: MarkupNode) -> Option<WordModel> {
    match n {
        MarkupNode::Element { classes, title, children } => match title {
            Some(t) => spec_parse_title(t@, spec_text_child(children@)),
            None => None,
        },
        MarkupNode::Text(_) => None,
    }
}

/// The successfully parsed words among a line's children, in order.
pub open spec fn spec_line_words(children: Seq<MarkupNode>) -> Seq<WordModel>
    decreases children.len(),
{
    if children.len() == 0 {
        Seq::empty()
    } else {
        spec_line_words(children.drop_last()) + match spec_word_of_node(children.last()) {
            Some(w) => seq![w],
            None => Seq::empty(),
        }
    }
}

/// The lines one node contributes: a line element with at least one parsed
/// word contributes that line; any other element is a wrapper to descend
/// through; a line with no parsed words, and a text node, contribute nothing.
pub open spec fn spec_node_lines(n: MarkupNode) -> Seq<Seq<WordModel>>
    decreases n,
{
    match n {
        MarkupNode::Element { classes, title, children } => {
            if spec_has_class(classes@, spec_line_marker()) {
                let ws = spec_line_words(children@);
                if ws.len() > 0 {
                    seq![ws]
                } else {
                    Seq::empty()
                }
            } else {
                spec_lines_of(children@)
            }
        },
        MarkupNode::Text(_) => Seq::empty(),
    }
}

/// All recognized lines of a document, in document order.
pub open spec fn spec_lines_of(nodes: Seq<MarkupNode>) -> Seq<Seq<WordModel>>
    decreases nodes,
{
    if nodes.len() == 0 {
        Seq::empty()
    } else {
        spec_lines_of(nodes.drop_last()) + spec_node_lines(nodes.last())
    }
}

/// The views of a sequence of parsed lines.
pub open spec fn lines_models(s: Seq<Vec<HocrWord>>) -> Seq<Seq<WordModel>> {
    s.map_values(|v: Vec<HocrWord>| crate::words::word_models(v@))
}

pub fn has_class(classes: &Vec<String>, name: &String) -> (r: bool)
    ensures
        r == spec_has_class(classes@, name@),
{
    let mut i: usize = 0;
    while i < classes.len()
        invariant
            i <= classes@.len(),
            forall|j: int| 0 <= j < i ==> classes@[j]@ != name@,
        decreases classes@.len() - i,
    {
        if classes[i].eq(name) {
            return true;
        }
        i += 1;
    }
    false
}

/// The first text descendant of a node list, as the word text extractor
/// finds it: a leading text node wins; otherwise the walk descends into the
/// first element; anything else yields the empty string.
pub fn get_text_child(nodes: &Vec<MarkupNode>) -> (r: String)
    ensures
        r@ == spec_text_child(nodes@),
    decreases nodes,
{
    if nodes.len() == 0 {
        return String::new();
    }
    match &nodes[0] {
        MarkupNode::Text(t) => t.clone(),
        MarkupNode::Element { classes: _, title: _, children } => get_text_child(children),
    }
}

/// Parses one candidate word node.
pub fn parse_word_node(n: &MarkupNode) -> (r: Option<HocrWord>)
    ensures
        match spec_word_of_node(*n) {
            Some(m) => r is Some && r->0@ == m,
            None => r is None,
        },
        r is Some ==> r->0.wf(),
{
    match n {
        MarkupNode::Text(_) => None,
        MarkupNode::Element { classes: _, title, children } => match title {
            Some(t) => {
                let text = get_text_child(children);
                parse_word_title(t.as_str(), text)
            },
            None => None,
        },
    }
}

/// The parsed words of one line element's children, in order; children whose
/// title or text are malformed are dropped, the rest of the line survives.
pub fn collect_line_words(children: &Vec<MarkupNode>) -> (r: Vec<HocrWord>)
    ensures
        crate::words::word_models(r@) == spec_line_words(children@),
        forall|j: int| 0 <= j < r@.len() ==> (#[trigger] r@[j]).wf(),
{
    let mut out: Vec<HocrWord> = Vec::new();
    let mut j: usize = 0;
    proof {
        assert(children@.take(0) =~= Seq::<MarkupNode>::empty());
        assert(crate::words::word_models(out@) =~= spec_line_words(children@.take(0)));
    }
    while j < children.len()
        invariant
            j <= children@.len(),
            crate::words::word_models(out@) == spec_line_words(children@.take(j as int)),
            forall|k: int| 0 <= k < out@.len() ==> (#[trigger] out@[k]).wf(),
        decreases children@.len() - j,
    {
        proof {
            assert(children@.take(j + 1).drop_last() =~= children@.take(j as int));
            assert(children@.take(j + 1).last() == children@[j as int]);
        }
        let parsed = parse_word_node(&children[j]);
        match parsed {
            Some(w) => {
                out.push(w);
            },
            None => {},
        }
        proof {
            assert(crate::words::word_models(out@) =~= spec_line_words(children@.take(j + 1)));
        }
        j += 1;
    }
    proof {
        assert(children@.take(children@.len() as int) =~= children@);
    }
    out
}

/// Taking one more node appends exactly that node's contribution.
proof fn lemma_lines_of_step(nodes: Seq<MarkupNode>, i: int)
    requires
        0 <= i < nodes.len(),
    ensures
        spec_lines_of(nodes.take(i + 1)) == spec_lines_of(nodes.take(i)) + spec_node_lines(nodes[i]),
{
    assert(nodes.take(i + 1).drop_last() =~= nodes.take(i));
    assert(nodes.take(i + 1).last() == nodes[i]);
    assert(spec_lines_of(nodes.take(i + 1)) == spec_lines_of(nodes.take(i + 1).drop_last()) + spec_node_lines(nodes.take(i + 1).last()));
}

/// Walks the document, collecting every recognized line's parsed words.
/// Lines with no successfully parsed words are omitted; unknown wrapper
/// elements are descended through; the walk never fails, whatever the
/// document's shape.
pub fn extract_lines(nodes: &Vec<MarkupNode>) -> (r: Vec<Vec<HocrWord>>)
    ensures
        lines_models(r@) == spec_lines_of(nodes@),
        forall|k: int| 0 <= k < r@.len() ==> (#[trigger] r@[k])@.len() > 0,
        forall|k: int, j: int| 0 <= k < r@.len() && 0 <= j < r@[k]@.len() ==> (#[trigger] r@[k]@[j]).wf(),
    decreases nodes,
{
    let line_marker = String::from_str("ocr_line");
    let mut out: Vec<Vec<HocrWord>> = Vec::new();
    let mut idx: usize = 0;
    proof {
        assert(nodes@.take(0) =~= Seq::<MarkupNode>::empty());
        assert(lines_models(out@) =~= spec_lines_of(nodes@.take(0)));
    }
    while idx < nodes.len()
        invariant
            idx <= nodes@.len(),
            line_marker@ == spec_line_marker(),
            lines_models(out@) == spec_lines_of(nodes@.take(idx as int)),
            forall|k: int| 0 <= k < out@.len() ==> (#[trigger] out@[k])@.len() > 0,
            forall|k: int, j: int| 0 <= k < out@.len() && 0 <= j < out@[k]@.len() ==> (#[trigger] out@[k]@[j]).wf(),
        decreases nodes@.len() - idx,
    {
        proof {
            lemma_lines_of_step(nodes@, idx as int);
        }
        let ghost out0 = out@;
        match &nodes[idx] {
            MarkupNode::Text(_) => {
                proof {
                    assert(nodes@[idx as int] is Text);
                    assert(spec_node_lines(nodes@[idx as int]) =~= Seq::<Seq<WordModel>>::empty());
                    assert(lines_models(out@) =~= spec_lines_of(nodes@.take(idx + 1)));
                }
            },
            MarkupNode::Element { classes, title: _, children } => {
                proof {
                    assert(nodes@[idx as int] is Element);
                }
                if has_class(classes, &line_marker) {
                    let ws = collect_line_words(children);
                    proof {
                        assert(spec_node_lines(nodes@[idx as int]) == (
                            if crate::words::word_models(ws@).len() > 0 {
                                seq![crate::words::word_models(ws@)]
                            } else {
                                Seq::<Seq<WordModel>>::empty()
                            }
                        ));
                    }
                    if ws.len() > 0 {
                        out.push(ws);
                    }
                    proof {
                        assert(lines_models(out@) =~= spec_lines_of(nodes@.take(idx + 1)));
                    }
                } else {
                    let mut sub = extract_lines(children);
                    let ghost sub0 = sub@;
                    proof {
                        assert(spec_node_lines(nodes@[idx as int]) == lines_models(sub0));
                    }
                    out.append(&mut sub);
                    proof {
                        assert(out@ == out0 + sub0);
                        assert(lines_models(out@) =~= lines_models(out0) + lines_models(sub0));
                        assert(lines_models(out@) =~= spec_lines_of(nodes@.take(idx + 1)));
                    }
                }
            },
        }
        idx += 1;
    }
    proof {
        assert(nodes@.take(nodes@.len() as int) =~= nodes@);
    }
    out
}

} // verus!
