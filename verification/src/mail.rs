//! A parsed message as the tree of its parts, and the lines that show it.

use vstd::prelude::*;
use mailparse::{MailHeaderMap, MailParseError};
use htmlescape::DecodeErr;

verus! {

#[verifier::external_type_specification]
#[verifier::external_body]
pub struct ExMailParseError(MailParseError);

#[verifier::external_type_specification]
#[verifier::external_body]
pub struct ExDecodeErr(DecodeErr);

/// The text that `htmlescape::decode_html` makes of `s` by replacing its
/// character references, or `None` where it reports an error.
pub uninterp spec fn html_unescaped(s: Seq<char>) -> Option<Seq<char>>;

/// One part of a parsed message: the value of its first header named as
/// asked, its media type, and how many subparts it has.
pub struct NodeView {
    pub header: Option<Seq<char>>,
    pub mimetype: Seq<char>,
    pub subparts: nat,
}

/// The parts of the message `raw` as `mailparse::parse_mail` parses it,
/// listed by `ParsedMail::parts` (each part, then its subparts in order),
/// with the first value of the header `header` of each; `None` where parsing
/// fails.
pub uninterp spec fn mail_nodes(raw: Seq<u8>, header: Seq<char>) -> Option<Seq<NodeView>>;

/// The body that `ParsedMail::get_body` decodes of part `index` (in the order
/// of `ParsedMail::parts`) of the message `raw`: `Some(None)` where decoding
/// fails, `None` where the message does not parse or has no such part.
pub uninterp spec fn mail_part_body(raw: Seq<u8>, index: int) -> Option<Option<Seq<char>>>;

/// One part of a message as `mailparse` gives it, in plain values.
pub struct MailNode {
    /// The first value of the header asked for.
    pub header: Option<String>,
    /// The media type.
    pub mimetype: String,
    /// The number of subparts.
    pub subparts: usize,
}

impl View for MailNode {
    type V = NodeView;

    open spec fn view(&self) -> NodeView {
        NodeView {
            header: match self.header {
                Some(s) => Some(s@),
                None => None,
            },
            mimetype: self.mimetype@,
            subparts: self.subparts as nat,
        }
    }
}

/// The views of a sequence of parts.
pub open spec fn node_views(nodes: Seq<MailNode>) -> Seq<NodeView> {
    nodes.map_values(|n: MailNode| n@)
}

/// Where the serialized subtree of the part at `pos` ends: the part, then its
/// subparts' subtrees one after the other; -1 where the counts run past the
/// parts.
pub open spec fn part_end(nodes: Seq<NodeView>, pos: int) -> int
    decreases nodes.len() - pos, 0int,
{
    if pos < 0 || pos >= nodes.len() {
        -1
    } else {
        subparts_end(nodes, pos + 1, nodes[pos].subparts as int)
    }
}

/// Where `k` sibling subtrees, the first at `pos`, end.
pub open spec fn subparts_end(nodes: Seq<NodeView>, pos: int, k: int) -> int
    decreases nodes.len() - pos, k + 1,
{
    if k <= 0 {
        pos
    } else if pos < 0 || pos >= nodes.len() {
        -1
    } else {
        let e = part_end(nodes, pos);
        if e <= pos || e > nodes.len() {
            -1
        } else {
            subparts_end(nodes, e, k - 1)
        }
    }
}

/// `mailparse::parse_mail` followed by `ParsedMail::parts`, each part taken
/// one for one into plain values: `MailHeaderMap::get_first_value` of
/// `header` on its headers, its `ctype.mimetype` field and the length of its
/// `subparts` field. Claimed: it fails exactly where parsing fails, and
/// otherwise gives the parts named by `mail_nodes`, of which there is at
/// least one, the message itself, as `parts` documents. As `parts` lists each
/// part right before its subparts' parts (its iterator splices a part's
/// `subparts` in after it), the subpart counts describe the parts as one
/// tree: the message's subtree ends exactly at the end of the list.
#[verifier::external_body]
fn parse_mail_nodes(raw: &[u8], header: &str) -> (r: Result<Vec<MailNode>, MailParseError>)
    ensures
        r is Ok <==> mail_nodes(raw@, header@) is Some,
        r matches Ok(v) ==> mail_nodes(raw@, header@) == Some(node_views(v@)),
        r matches Ok(v) ==> v@.len() >= 1,
        r matches Ok(v) ==> part_end(node_views(v@), 0) == v@.len(),
{
    let mail = mailparse::parse_mail(raw)?;
    let mut nodes = Vec::new();
    for part in mail.parts() {
        let value = part.headers.get_first_value(header);
        nodes.push(MailNode { header: value, mimetype: part.ctype.mimetype.clone(), subparts: part.subparts.len() });
    }
    Ok(nodes)
}

/// `ParsedMail::get_body` of part `index`, in the order of
/// `ParsedMail::parts`, of the message `raw` as `mailparse::parse_mail`
/// parses it. Claimed: the result is what `mail_part_body` names.
#[verifier::external_body]
fn part_body_at(raw: &[u8], index: usize) -> (r: Option<Result<String, MailParseError>>)
    ensures
        match r {
            None => mail_part_body(raw@, index as int) is None,
            Some(Ok(b)) => mail_part_body(raw@, index as int) == Some(Some(b@)),
            Some(Err(_)) => mail_part_body(raw@, index as int) == Some(None::<Seq<char>>),
        },
{
    let mail = mailparse::parse_mail(raw).ok()?;
    let part = mail.parts().nth(index)?;
    Some(part.get_body())
}

/// `htmlescape::decode_html`: `s` with its HTML character references
/// replaced. Claimed: the result is the function of `s` named
/// `html_unescaped`, `Ok` exactly where that is `Some`.
#[verifier::external_body]
fn html_decode(s: &str) -> (r: Result<String, DecodeErr>)
    ensures
        r is Ok <==> html_unescaped(s@) is Some,
        r matches Ok(t) ==> html_unescaped(s@) == Some(t@),
{
    htmlescape::decode_html(s)
}

/// Why the display of a message stopped.
pub enum MailError {
    /// The message did not parse.
    Parse(MailParseError),
    /// The body of a part shown as text could not be decoded.
    Body(MailParseError),
    /// The parts' subpart counts do not describe a tree of the parts.
    Shape,
}

/// The header whose first value heads each part.
pub open spec fn subject_header() -> Seq<char> {
    "Subject"@
}

/// One line of the display: text to print as it is, or an HTML document to
/// print rendered as plain text.
pub enum Line {
    Text(String),
    Html(String),
}

/// The mathematical value of a line.
pub enum LineView {
    Text(Seq<char>),
    Html(Seq<char>),
}

impl View for Line {
    type V = LineView;

    open spec fn view(&self) -> LineView {
        match self {
            Line::Text(t) => LineView::Text(t@),
            Line::Html(h) => LineView::Html(h@),
        }
    }
}

/// The views of a sequence of lines.
pub open spec fn line_views(lines: Seq<Line>) -> Seq<LineView> {
    lines.map_values(|l: Line| l@)
}

/// The media type shown as text after undoing HTML character references.
pub open spec fn is_plain(mimetype: Seq<char>) -> bool {
    mimetype == "text/plain"@
}

/// The media type shown as text rendered from HTML.
pub open spec fn is_html(mimetype: Seq<char>) -> bool {
    mimetype == "text/html"@
}

/// Whether a part of this media type has its body shown.
pub open spec fn shows_body(mimetype: Seq<char>) -> bool {
    is_plain(mimetype) || is_html(mimetype)
}

/// The lines that head a part: its subject if it has one, then its media type.
pub open spec fn head_lines(n: NodeView) -> Seq<LineView> {
    (match n.header {
        Some(s) => seq![LineView::Text("Subject: "@ + s)],
        None => Seq::empty(),
    }) + seq![LineView::Text("mimetype: "@ + n.mimetype)]
}

/// The line that shows a decoded body of a part shown as text: a plain body
/// with its character references replaced (as it is where that fails), an
/// HTML body to be rendered.
pub open spec fn body_line(mimetype: Seq<char>, body: Seq<char>) -> LineView {
    if is_plain(mimetype) {
        LineView::Text(match html_unescaped(body) {
            Some(t) => t,
            None => body,
        })
    } else {
        LineView::Html(body)
    }
}

/// How a walk over the parts ended.
pub enum WalkEnd {
    /// Every part walked was shown.
    Done,
    /// The body of the part at this position could not be decoded.
    Undecodable(int),
    /// The message has no part at this position, or the subpart counts run
    /// past the parts.
    Shape,
}

/// What a walk over the parts shows: its lines, the position after the last
/// part it walked, and how it ended.
pub struct Walk {
    pub lines: Seq<LineView>,
    pub next: int,
    pub end: WalkEnd,
}

/// The display of the part at `pos` of the parts `nodes` of the message
/// `raw`: its head, its body for the media types shown as text, then the
/// display of each of its subparts in order. A walk stops at the first part
/// whose body cannot be decoded, after that part's head.
pub open spec fn walk_part(raw: Seq<u8>, nodes: Seq<NodeView>, pos: int) -> Walk
    decreases nodes.len() - pos, 0int,
{
    if pos < 0 || pos >= nodes.len() {
        Walk { lines: Seq::empty(), next: pos, end: WalkEnd::Shape }
    } else {
        let n = nodes[pos];
        let head = head_lines(n);
        if shows_body(n.mimetype) {
            match mail_part_body(raw, pos) {
                Some(Some(body)) => {
                    let sub = walk_subparts(raw, nodes, pos + 1, n.subparts as int);
                    Walk { lines: head.push(body_line(n.mimetype, body)) + sub.lines, next: sub.next, end: sub.end }
                },
                Some(None) => Walk { lines: head, next: pos + 1, end: WalkEnd::Undecodable(pos) },
                None => Walk { lines: head, next: pos + 1, end: WalkEnd::Shape },
            }
        } else {
            let sub = walk_subparts(raw, nodes, pos + 1, n.subparts as int);
            Walk { lines: head + sub.lines, next: sub.next, end: sub.end }
        }
    }
}

/// The display of `k` sibling parts, the first at `pos`, one after the other.
pub open spec fn walk_subparts(raw: Seq<u8>, nodes: Seq<NodeView>, pos: int, k: int) -> Walk
    decreases nodes.len() - pos, k + 1,
{
    if k <= 0 {
        Walk { lines: Seq::empty(), next: pos, end: WalkEnd::Done }
    } else if pos < 0 || pos >= nodes.len() {
        Walk { lines: Seq::empty(), next: pos, end: WalkEnd::Shape }
    } else {
        let first = walk_part(raw, nodes, pos);
        if !(first.end is Done) {
            first
        } else if first.next <= pos || first.next > nodes.len() {
            Walk { lines: first.lines, next: first.next, end: WalkEnd::Shape }
        } else {
            let rest = walk_subparts(raw, nodes, first.next, k - 1);
            Walk { lines: first.lines + rest.lines, next: rest.next, end: rest.end }
        }
    }
}

/// A part's body is shown for exactly two media types, `text/plain` and
/// `text/html`, and for no other type, `text/*` or not.
pub proof fn lemma_shown_types(mimetype: Seq<char>)
    ensures
        shows_body(mimetype) <==> (mimetype == "text/plain"@ || mimetype == "text/html"@),
{
}

/// The line of a shown body: a plain body in full, its character references
/// replaced (or the whole body as it is where that fails), whatever its
/// length; an HTML body exactly as decoded by `mailparse`, to be rendered.
pub proof fn lemma_body_line(body: Seq<char>)
    ensures
        body_line("text/plain"@, body) == LineView::Text(
            if html_unescaped(body) is Some { html_unescaped(body)->Some_0 } else { body },
        ),
        html_unescaped(body) is None ==> body_line("text/plain"@, body) == LineView::Text(body),
        body_line("text/html"@, body) == LineView::Html(body),
{
    reveal_strlit("text/plain");
    reveal_strlit("text/html");
    assert("text/plain"@.len() != "text/html"@.len());
}

/// What the display of one part is, in terms of the part and its body: its
/// subject line if it has a subject, its media-type line, then for a
/// `text/plain` part its whole body with character references replaced (as
/// it is where that fails), for a `text/html` part its whole body to be
/// rendered, for any other part nothing; then the display of its subparts.
/// Where a shown body cannot be decoded, the display stops after the head.
pub proof fn lemma_walk_part_shows(raw: Seq<u8>, nodes: Seq<NodeView>, pos: int)
    requires
        0 <= pos < nodes.len(),
    ensures
        ({
            let n = nodes[pos];
            let head = (if n.header is Some {
                seq![LineView::Text("Subject: "@ + n.header->Some_0)]
            } else {
                Seq::<LineView>::empty()
            }) + seq![LineView::Text("mimetype: "@ + n.mimetype)];
            let sub = walk_subparts(raw, nodes, pos + 1, n.subparts as int);
            let w = walk_part(raw, nodes, pos);
            let found = mail_part_body(raw, pos);
            let b = found->Some_0->Some_0;
            &&& w.lines.len() >= head.len()
            &&& w.lines.take(head.len() as int) == head
            &&& !(n.mimetype == "text/plain"@ || n.mimetype == "text/html"@) ==> w.lines == head + sub.lines
                && w.next == sub.next && w.end == sub.end
            &&& (n.mimetype == "text/plain"@ && found matches Some(Some(_))) ==> w.lines
                == head + seq![LineView::Text(if html_unescaped(b) is Some { html_unescaped(b)->Some_0 } else { b })]
                + sub.lines && w.next == sub.next && w.end == sub.end
            &&& (n.mimetype == "text/html"@ && found matches Some(Some(_))) ==> w.lines
                == head + seq![LineView::Html(b)] + sub.lines && w.next == sub.next && w.end == sub.end
            &&& ((n.mimetype == "text/plain"@ || n.mimetype == "text/html"@) && mail_part_body(raw, pos) == Some(
                None::<Seq<char>>,
            )) ==> w.lines == head && w.end == WalkEnd::Undecodable(pos)
        }),
{
    let n = nodes[pos];
    let head = head_lines(n);
    let sub = walk_subparts(raw, nodes, pos + 1, n.subparts as int);
    assert(head =~= (if n.header is Some {
        seq![LineView::Text("Subject: "@ + n.header->Some_0)]
    } else {
        Seq::<LineView>::empty()
    }) + seq![LineView::Text("mimetype: "@ + n.mimetype)]);
    match mail_part_body(raw, pos) {
        Some(Some(b)) => {
            lemma_body_line(b);
            assert(head.push(body_line(n.mimetype, b)) =~= head + seq![body_line(n.mimetype, b)]);
        },
        _ => {},
    }
    let w = walk_part(raw, nodes, pos);
    assert(w.lines.take(head.len() as int) =~= head);
}

/// The display of sibling parts shows each of them in turn: the display of
/// `k` siblings is the display of the first, followed, when that one is
/// shown to its end, by the display of the `k - 1` after it. No sibling is
/// left out.
pub proof fn lemma_walk_siblings(raw: Seq<u8>, nodes: Seq<NodeView>, pos: int, k: int)
    requires
        k > 0,
        0 <= pos < nodes.len(),
    ensures
        ({
            let first = walk_part(raw, nodes, pos);
            let all = walk_subparts(raw, nodes, pos, k);
            &&& all.lines.len() >= first.lines.len()
            &&& all.lines.take(first.lines.len() as int) == first.lines
            &&& (first.end is Done && pos < first.next <= nodes.len()) ==> all.lines == first.lines
                + walk_subparts(raw, nodes, first.next, k - 1).lines
            &&& !(first.end is Done) ==> all == first
        }),
{
    let first = walk_part(raw, nodes, pos);
    let all = walk_subparts(raw, nodes, pos, k);
    assert(all.lines.take(first.lines.len() as int) =~= first.lines);
}

/// A walk that shows every part it reaches ends right after the subtree it
/// started at: the display visits each part of that subtree once, in order.
pub proof fn lemma_walk_covers_part(raw: Seq<u8>, nodes: Seq<NodeView>, pos: int)
    ensures
        walk_part(raw, nodes, pos).end is Done ==> walk_part(raw, nodes, pos).next == part_end(nodes, pos),
    decreases nodes.len() - pos, 0int,
{
    if 0 <= pos < nodes.len() {
        lemma_walk_covers_subparts(raw, nodes, pos + 1, nodes[pos].subparts as int);
    }
}

/// The same for `k` sibling subtrees, the first at `pos`.
pub proof fn lemma_walk_covers_subparts(raw: Seq<u8>, nodes: Seq<NodeView>, pos: int, k: int)
    ensures
        walk_subparts(raw, nodes, pos, k).end is Done ==> walk_subparts(raw, nodes, pos, k).next == subparts_end(nodes, pos, k),
    decreases nodes.len() - pos, k + 1,
{
    if k > 0 && 0 <= pos < nodes.len() {
        lemma_walk_covers_part(raw, nodes, pos);
        let first = walk_part(raw, nodes, pos);
        if first.end is Done && first.next > pos && first.next <= nodes.len() {
            lemma_walk_covers_subparts(raw, nodes, first.next, k - 1);
        }
    }
}

/// The width that HTML is rendered for: the terminal's width when it is
/// known, else 79 columns.
pub fn display_width(terminal: Option<usize>) -> (r: usize)
    ensures
        r == match terminal {
            Some(w) => w,
            None => 79,
        },
{
    match terminal {
        Some(w) => w,
        None => 79,
    }
}

/// Whether a part of this media type has its body shown.
pub fn is_shown_as_text(mimetype: &String) -> (r: bool)
    ensures
        r == shows_body(mimetype@),
        r == (mimetype@ == "text/plain"@ || mimetype@ == "text/html"@),
{
    let plain = String::from_str("text/plain");
    let html = String::from_str("text/html");
    *mimetype == plain || *mimetype == html
}

/// The lines that head a part: its subject if it has one, then its media type.
pub fn part_head(node: &MailNode) -> (r: Vec<Line>)
    ensures
        line_views(r@) == head_lines(node@),
{
    let mut lines: Vec<Line> = Vec::new();
    match &node.header {
        Some(s) => {
            let mut line = String::from_str("Subject: ");
            line.append(s.as_str());
            lines.push(Line::Text(line));
        },
        None => {},
    }
    let mut line = String::from_str("mimetype: ");
    line.append(node.mimetype.as_str());
    lines.push(Line::Text(line));
    assert(line_views(lines@) =~= head_lines(node@));
    lines
}

/// The line that shows a decoded body of a part shown as text.
pub fn body_line_of(mimetype: &String, body: String) -> (r: Line)
    requires
        shows_body(mimetype@),
    ensures
        r@ == body_line(mimetype@, body@),
{
    let plain = String::from_str("text/plain");
    if *mimetype == plain {
        match html_decode(body.as_str()) {
            Ok(decoded) => Line::Text(decoded),
            Err(_) => Line::Text(body),
        }
    } else {
        Line::Html(body)
    }
}

/// How the exec walk ended.
enum WalkStop {
    Done,
    Undecodable(MailParseError),
    Shape,
}

fn walk_part_exec(raw: &[u8], nodes: &Vec<MailNode>, pos: usize, lines: &mut Vec<Line>) -> (r: (usize, WalkStop))
    ensures
        ({
            let w = walk_part(raw@, node_views(nodes@), pos as int);
            &&& line_views(final(lines)@) == line_views(old(lines)@) + w.lines
            &&& r.0 == w.next
            &&& match r.1 {
                WalkStop::Done => w.end is Done,
                WalkStop::Undecodable(_) => w.end matches WalkEnd::Undecodable(_),
                WalkStop::Shape => w.end is Shape,
            }
        }),
    decreases nodes@.len() - pos, 0int,
{
    let ghost views = node_views(nodes@);
    if pos >= nodes.len() {
        assert(line_views(lines@) + Seq::<LineView>::empty() =~= line_views(lines@));
        return (pos, WalkStop::Shape);
    }
    let node = &nodes[pos];
    assert(views.len() == nodes@.len());
    assert(views[pos as int] == node@);
    let ghost before = line_views(lines@);
    let mut head = part_head(node);
    lines.append(&mut head);
    assert(line_views(lines@) =~= before + head_lines(node@));
    if is_shown_as_text(&node.mimetype) {
        match part_body_at(raw, pos) {
            Some(Ok(body)) => {
                let ghost b = body@;
                let line = body_line_of(&node.mimetype, body);
                let ghost mid = line_views(lines@);
                lines.push(line);
                assert(line_views(lines@) =~= mid.push(body_line(node@.mimetype, b)));
                let ghost with_body = line_views(lines@);
                let r = walk_subparts_exec(raw, nodes, pos + 1, node.subparts, lines);
                assert(line_views(lines@) =~= before + (head_lines(node@).push(body_line(node@.mimetype, b)) + walk_subparts(raw@, views, pos + 1, node.subparts as int).lines));
                assert(walk_part(raw@, views, pos as int).lines == head_lines(node@).push(body_line(node@.mimetype, b)) + walk_subparts(raw@, views, pos + 1, node.subparts as int).lines);
                r
            },
            Some(Err(e)) => {
                assert(walk_part(raw@, views, pos as int).lines == head_lines(node@));
                (pos + 1, WalkStop::Undecodable(e))
            },
            None => {
                assert(walk_part(raw@, views, pos as int).lines == head_lines(node@));
                (pos + 1, WalkStop::Shape)
            },
        }
    } else {
        let r = walk_subparts_exec(raw, nodes, pos + 1, node.subparts, lines);
        assert(line_views(lines@) =~= before + (head_lines(node@) + walk_subparts(raw@, views, pos + 1, node.subparts as int).lines));
        assert(walk_part(raw@, views, pos as int).lines == head_lines(node@) + walk_subparts(raw@, views, pos + 1, node.subparts as int).lines);
        r
    }
}

fn walk_subparts_exec(raw: &[u8], nodes: &Vec<MailNode>, pos: usize, k: usize, lines: &mut Vec<Line>) -> (r: (usize, WalkStop))
    ensures
        ({
            let w = walk_subparts(raw@, node_views(nodes@), pos as int, k as int);
            &&& line_views(final(lines)@) == line_views(old(lines)@) + w.lines
            &&& r.0 == w.next
            &&& match r.1 {
                WalkStop::Done => w.end is Done,
                WalkStop::Undecodable(_) => w.end matches WalkEnd::Undecodable(_),
                WalkStop::Shape => w.end is Shape,
            }
        }),
    decreases nodes@.len() - pos, k + 1,
{
    let ghost views = node_views(nodes@);
    let ghost before = line_views(lines@);
    if k == 0 {
        assert(before + Seq::<LineView>::empty() =~= before);
        return (pos, WalkStop::Done);
    }
    if pos >= nodes.len() {
        assert(before + Seq::<LineView>::empty() =~= before);
        return (pos, WalkStop::Shape);
    }
    let (next, stop) = walk_part_exec(raw, nodes, pos, lines);
    let ghost first = walk_part(raw@, views, pos as int);
    match stop {
        WalkStop::Done => {},
        _ => {
            return (next, stop);
        },
    }
    if next <= pos || next > nodes.len() {
        return (next, WalkStop::Shape);
    }
    let ghost mid = line_views(lines@);
    let r = walk_subparts_exec(raw, nodes, next, k - 1, lines);
    proof {
        let rest = walk_subparts(raw@, views, next as int, k - 1);
        assert(before + (first.lines + rest.lines) =~= (before + first.lines) + rest.lines);
    }
    r
}

/// The lines that show the message `raw`: each part's head, its body for the
/// media types shown as text, then its subparts in order, starting with the
/// message itself. Stops where the message does not parse, where a shown
/// body cannot be decoded (after that part's head), or where the parts do
/// not form a tree.
pub fn display_lines(raw: &[u8]) -> (r: (Vec<Line>, Result<(), MailError>))
    ensures
        mail_nodes(raw@, subject_header()) is None ==> r.0@.len() == 0 && r.1 matches Err(MailError::Parse(_)),
        mail_nodes(raw@, subject_header()) matches Some(nodes) ==> {
            let w = walk_part(raw@, nodes, 0);
            &&& line_views(r.0@) == w.lines
            &&& (r.1 is Ok <==> w.end is Done)
            &&& (r.1 matches Err(MailError::Body(_)) <==> w.end is Undecodable)
            &&& (r.1 matches Err(MailError::Shape) <==> w.end is Shape)
            &&& (r.1 is Ok ==> w.next == nodes.len())
        },
{
    let header = "Subject";
    proof {
        reveal_strlit("Subject");
    }
    assert(header@ == subject_header());
    let nodes = match parse_mail_nodes(raw, header) {
        Ok(v) => v,
        Err(e) => return (Vec::new(), Err(MailError::Parse(e))),
    };
    let mut lines: Vec<Line> = Vec::new();
    assert(line_views(lines@) =~= Seq::<LineView>::empty());
    let (_next, stop) = walk_part_exec(raw, &nodes, 0, &mut lines);
    proof {
        lemma_walk_covers_part(raw@, node_views(nodes@), 0);
    }
    assert(line_views(lines@) =~= walk_part(raw@, node_views(nodes@), 0).lines);
    match stop {
        WalkStop::Done => (lines, Ok(())),
        WalkStop::Undecodable(e) => (lines, Err(MailError::Body(e))),
        WalkStop::Shape => (lines, Err(MailError::Shape)),
    }
}

} // verus!
