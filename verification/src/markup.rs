//! Which documents can be converted to Markdown.
//!
//! The converter writes one text for a document, and one for each cell of a table. For a link, an
//! emphasis or a quotation it notes how long the text is when the element begins, and writes its
//! signs there when the element ends. A list item that is in no list takes the white space away
//! from the very start of the text when it ends, so that a note made before is no longer where it
//! was: it may lie behind the end of the text, or inside a character. The same item then writes
//! four spaces behind each line feed that is left.
//!
//! What is taken away is never more than what was written before the first letter or digit: two
//! line feeds for each paragraph or division that it is in, at most four line feeds or spaces for
//! any other element, and one for a text. What comes back is at least
//! eight spaces for each paragraph or division that ended behind that letter, and every letter and
//! digit inside the element that made the note. Where that is enough, the note still lies within
//! the text, and where the document holds nothing but ASCII, it lies between characters. A note
//! made before anything is written is right in any case, except for a quotation, which writes
//! behind its own line feed.

use crate::bindings::html;
use crate::text;
use vstd::prelude::*;

verus! {

// ── The parts of a document ─────────────────────────────────────────────────

/// What the converter makes of a part of a document.
#[derive(Debug, Clone, Copy, PartialEq, Eq, Structural)]
pub enum Role {
    /// A text.
    Text,
    /// An item of a list; outside of lists it writes nothing itself.
    Item,
    /// A list.
    List,
    /// A cell of a table, for which a text of its own is written.
    Cell,
    /// A table, of which nothing but its cells is written.
    Table,
    /// A frame, of whose contents nothing is written.
    Frame,
    /// A template, whose contents are no part of the document.
    Template,
    /// Its contents are taken over as they are.
    Verbatim,
    /// Something is written at its start when it ends.
    Mark,
    /// A mark that begins with a line feed.
    Quote,
    /// It begins and ends with two line feeds.
    Block,
    /// It writes line feeds and maybe something else.
    Gap,
    /// It writes something, but no white space.
    Sign,
    /// It writes nothing.
    Other,
}

/// An element that emphasizes, strikes out or links what it contains.
pub open spec fn mark_tag(tag: Seq<char>) -> bool {
    tag == "a"@ || tag == "b"@ || tag == "strong"@ || tag == "i"@ || tag == "em"@ || tag == "s"@
        || tag == "del"@
}

/// A paragraph or a division.
pub open spec fn block_tag(tag: Seq<char>) -> bool {
    tag == "p"@ || tag == "div"@ || tag == "section"@ || tag == "header"@ || tag == "footer"@
}

/// A heading.
pub open spec fn heading_tag(tag: Seq<char>) -> bool {
    tag == "h1"@ || tag == "h2"@ || tag == "h3"@ || tag == "h4"@ || tag == "h5"@ || tag == "h6"@
}

/// An element inside which no other is converted, or of which something else is written.
pub open spec fn enclosing_role(tag: Seq<char>) -> Role {
    if tag == "td"@ || tag == "th"@ {
        Role::Cell
    } else if tag == "table"@ {
        Role::Table
    } else if tag == "iframe"@ {
        Role::Frame
    } else if tag == "template"@ {
        Role::Template
    } else if tag == "pre"@ || tag == "sub"@ || tag == "sup"@ {
        Role::Verbatim
    } else {
        Role::Other
    }
}

/// What the converter makes of an element with the given name.
pub open spec fn role_of(tag: Seq<char>) -> Role {
    if tag == "li"@ {
        Role::Item
    } else if tag == "ul"@ || tag == "ol"@ || tag == "menu"@ {
        Role::List
    } else if mark_tag(tag) {
        Role::Mark
    } else if tag == "q"@ || tag == "cite"@ || tag == "blockquote"@ {
        Role::Quote
    } else if block_tag(tag) {
        Role::Block
    } else if heading_tag(tag) || tag == "br"@ || tag == "hr"@ || tag == "img"@ {
        Role::Gap
    } else if tag == "code"@ || tag == "details"@ || tag == "summary"@ {
        Role::Sign
    } else {
        enclosing_role(tag)
    }
}

/// A part of a document.
pub struct Part {
    /// How many parts contain it.
    pub depth: nat,
    pub role: Role,
    /// How many letters and digits of ASCII it holds, if it is a text.
    pub ink: nat,
    /// It is a text that begins with one of them.
    pub bare: bool,
}

/// A letter or a digit of ASCII.
pub open spec fn inky(c: char) -> bool {
    '0' <= c <= '9' || 'A' <= c <= 'Z' || 'a' <= c <= 'z'
}

/// How many letters and digits of ASCII a text holds.
pub open spec fn ink_of(s: Seq<char>) -> nat
    decreases s.len(),
{
    if s.len() == 0 {
        0
    } else {
        ink_of(s.drop_last()) + if inky(s.last()) {
            1nat
        } else {
            0
        }
    }
}

/// The words of an element, the name of each attribute before its value, hold an attribute with
/// the name `name`.
pub open spec fn named(words: Seq<Seq<char>>) -> bool {
    exists|k: int| 0 <= k < words.len() && k % 2 == 0 && #[trigger] words[k] == "name"@
}

/// The part that a node of the document makes: an element has a name, a text has none but has
/// its characters. An anchor that is named is written with all that it contains when it begins,
/// and is no mark.
pub open spec fn part_of(n: (nat, Option<Seq<char>>, Seq<Seq<char>>)) -> Part {
    match n.1 {
        Some(tag) => Part {
            depth: n.0,
            role: if tag == "a"@ && named(n.2) {
                Role::Sign
            } else {
                role_of(tag)
            },
            ink: 0,
            bare: false,
        },
        None => if n.2.len() == 0 {
            Part { depth: n.0, role: Role::Other, ink: 0, bare: false }
        } else {
            let t = n.2[0];
            Part {
                depth: n.0,
                role: Role::Text,
                ink: ink_of(t),
                bare: t.len() > 0 && inky(t[0]),
            }
        },
    }
}

/// The parts of a document, in its order.
pub open spec fn parts_of(nodes: Seq<(nat, Option<Seq<char>>, Seq<Seq<char>>)>) -> Seq<Part> {
    Seq::new(nodes.len(), |i: int| part_of(nodes[i]))
}

/// A second digit with which a percent sign stands for a byte beyond ASCII.
pub open spec fn high_digit(c: char) -> bool {
    c == '8' || c == '9' || 'A' <= c <= 'F' || 'a' <= c <= 'f'
}

/// A text in ASCII that stays so when its percent signs are resolved.
pub open spec fn plain(s: Seq<char>) -> bool {
    &&& forall|i: int| 0 <= i < s.len() ==> (#[trigger] s[i]) as u32 <= 0x7f
    &&& forall|i: int|
        0 <= i && i + 1 < s.len() && #[trigger] s[i] == '%' ==> !high_digit(s[i + 1])
}

/// A node of which everything is plain: its name, its text, its attributes.
pub open spec fn plain_node(n: (nat, Option<Seq<char>>, Seq<Seq<char>>)) -> bool {
    &&& n.1 matches Some(tag) ==> plain(tag)
    &&& forall|k: int| 0 <= k < n.2.len() ==> plain(#[trigger] n.2[k])
}

/// A document of which everything is plain.
pub open spec fn plain_nodes(nodes: Seq<(nat, Option<Seq<char>>, Seq<Seq<char>>)>) -> bool {
    forall|i: int| 0 <= i < nodes.len() ==> plain_node(#[trigger] nodes[i])
}

// ── Their places ────────────────────────────────────────────────────────────

/// The last part up to `k` that is less deep than `d`; -1 if there is none.
pub open spec fn last_above(p: Seq<Part>, k: int, d: nat) -> int
    decreases k + 1,
{
    if k < 0 {
        -1
    } else if p[k].depth < d {
        k
    } else {
        last_above(p, k - 1, d)
    }
}

/// The part that contains the part at `j` directly; -1 if none does.
pub open spec fn parent(p: Seq<Part>, j: int) -> int {
    last_above(p, j - 1, p[j].depth)
}

/// The first part from `k` on that is not deeper than `d`; the end if there is none.
pub open spec fn first_beside(p: Seq<Part>, k: int, d: nat) -> int
    decreases p.len() - k,
{
    if k >= p.len() {
        p.len() as int
    } else if p[k].depth <= d {
        k
    } else {
        first_beside(p, k + 1, d)
    }
}

/// The first part behind the part at `j` and all that it contains.
pub open spec fn end(p: Seq<Part>, j: int) -> int {
    first_beside(p, j + 1, p[j].depth)
}

/// Its contents are not written where it stands.
pub open spec fn bounds(r: Role) -> bool {
    r == Role::Cell || r == Role::Table || r == Role::Frame
}

/// The innermost cell, table or frame that contains the part at `j`; -1 if none does.
pub open spec fn owner(p: Seq<Part>, j: int) -> int
    decreases j,
{
    let a = parent(p, j);
    if !(0 <= a < j) {
        -1
    } else if bounds(p[a].role) {
        a
    } else {
        owner(p, a)
    }
}

/// Something with the role contains the part at `j`, no further out than its owner.
pub open spec fn below(p: Seq<Part>, j: int, role: Role) -> bool
    decreases j,
{
    let a = parent(p, j);
    0 <= a < j && !bounds(p[a].role) && (p[a].role == role || below(p, a, role))
}

/// The part at `j` is no template, and if it is a cell, it is one of a table.
pub open spec fn proper_at(p: Seq<Part>, j: int) -> bool {
    &&& p[j].role != Role::Template
    &&& p[j].role == Role::Cell ==> owner(p, j) >= 0 && p[owner(p, j)].role == Role::Table
}

/// Every cell is one of a table, and there is no template.
pub open spec fn proper(p: Seq<Part>) -> bool {
    forall|j: int| 0 <= j < p.len() ==> #[trigger] proper_at(p, j)
}

/// A cell of a table that is taken over as it is, with no other table around it.
pub open spec fn sealed(p: Seq<Part>, c: int) -> bool {
    let t = owner(p, c);
    t >= 0 && below(p, t, Role::Verbatim) && owner(p, t) == -1
}

// ── What is written ─────────────────────────────────────────────────────────

/// The first part from `j` on with letters or digits that is written for `s`; the end if there
/// is none.
pub open spec fn first_ink(p: Seq<Part>, s: int, j: int) -> int
    decreases p.len() - j,
{
    if j >= p.len() {
        p.len() as int
    } else if p[j].ink > 0 && owner(p, j) == s {
        j
    } else {
        first_ink(p, s, j + 1)
    }
}

/// How many line feeds and spaces the part at `j` writes before the part at `f` at most, while
/// nothing else is written.
pub open spec fn blanks(p: Seq<Part>, f: int, j: int) -> nat {
    match p[j].role {
        Role::Text => 1,
        Role::Mark | Role::Sign | Role::Other | Role::Cell => 0,
        Role::Item => if below(p, j, Role::List) {
            4
        } else {
            0
        },
        Role::Block => if f < end(p, j) {
            2
        } else {
            4
        },
        _ => 4,
    }
}

/// How many line feeds and spaces the first `n` parts write for `s` before the part at `f` at
/// most, while nothing else is written.
pub open spec fn lead(p: Seq<Part>, s: int, f: int, n: int) -> nat
    decreases n,
{
    if n <= 0 {
        0
    } else {
        lead(p, s, f, n - 1) + if owner(p, n - 1) == s {
            blanks(p, f, n - 1)
        } else {
            0
        }
    }
}

/// How much white space stands at the start of what is written for `s` at most.
pub open spec fn margin(p: Seq<Part>, s: int) -> nat {
    let f = first_ink(p, s, 0);
    lead(p, s, f, f) + if f < p.len() && !p[f].bare {
        1nat
    } else {
        0
    }
}

/// How many letters and digits the parts from `a` up to `b` write for `s`.
pub open spec fn inked(p: Seq<Part>, s: int, a: int, b: int) -> nat
    decreases b - a,
{
    if b <= a {
        0
    } else {
        inked(p, s, a, b - 1) + if owner(p, b - 1) == s {
            p[b - 1].ink
        } else {
            0
        }
    }
}

/// The part at `k` is a paragraph or a division that is written for `s`, outside of lists, and
/// ends behind `f` but not behind `i`.
pub open spec fn closes(p: Seq<Part>, s: int, f: int, i: int, k: int) -> bool {
    &&& p[k].role == Role::Block
    &&& owner(p, k) == s
    &&& !below(p, k, Role::Verbatim)
    &&& !below(p, k, Role::List)
    &&& f < end(p, k) <= i
}

/// How many of the first `n` parts are such paragraphs or divisions.
pub open spec fn closed_count(p: Seq<Part>, s: int, f: int, i: int, n: int) -> nat
    decreases n,
{
    if n <= 0 {
        0
    } else {
        closed_count(p, s, f, i, n - 1) + if closes(p, s, f, i, n - 1) {
            1nat
        } else {
            0
        }
    }
}

/// Nothing of the part at `j` is written for `s` before the part at `m` begins.
pub open spec fn unwritten(p: Seq<Part>, s: int, m: int, j: int) -> bool {
    ||| owner(p, j) != s
    ||| p[j].role == Role::Other
    ||| p[j].role == Role::Item && !below(p, j, Role::List)
    ||| p[j].role == Role::Mark && m < end(p, j)
}

/// Nothing is written for `s` before the part at `m` begins.
pub open spec fn opening(p: Seq<Part>, s: int, m: int) -> bool {
    forall|j: int| 0 <= j < m ==> #[trigger] unwritten(p, s, m, j)
}

/// No white space is taken away before what the part at `m` has noted when the item at `i`,
/// which is in it but in no list, ends, or as much comes back.
pub open spec fn balanced(p: Seq<Part>, s: int, m: int, i: int) -> bool {
    let f = first_ink(p, s, 0);
    ||| margin(p, s) == 0
    ||| f < m && margin(p, s) <= 8 * closed_count(p, s, f, i, i) + inked(p, s, m + 1, end(p, m))
}

/// What the part at `m` has noted is still right when the item at `i`, which is in it but in no
/// list, has ended.
pub open spec fn steady(p: Seq<Part>, pure_ascii: bool, s: int, m: int, i: int) -> bool {
    ||| p[m].role == Role::Mark && opening(p, s, m)
    ||| pure_ascii && balanced(p, s, m, i)
}

/// One of the marks that contain the part at `j`, no further out than its owner, is not steady
/// for the item at `i`.
pub open spec fn shaken(p: Seq<Part>, pure_ascii: bool, s: int, i: int, j: int) -> bool
    decreases j,
{
    let a = parent(p, j);
    0 <= a < j && !bounds(p[a].role) && (((p[a].role == Role::Mark || p[a].role == Role::Quote)
        && !steady(p, pure_ascii, s, a, i)) || shaken(p, pure_ascii, s, i, a))
}

/// What the cell, the table or the frame at `s` owns is written somewhere; without one, it is
/// what the document itself owns.
pub open spec fn reached(p: Seq<Part>, s: int) -> bool {
    s == -1 || (p[s].role == Role::Cell && !sealed(p, s))
}

/// The part at `i` is a list item that is in no list and may put a note in the wrong place.
pub open spec fn stray(p: Seq<Part>, pure_ascii: bool, i: int) -> bool {
    let s = owner(p, i);
    &&& p[i].role == Role::Item
    &&& !below(p, i, Role::List)
    &&& !below(p, i, Role::Verbatim)
    &&& proper(p) ==> reached(p, s) && shaken(p, pure_ascii, s, i, i)
}

/// No list item of the document puts a note in the wrong place.
pub open spec fn settled(nodes: Seq<(nat, Option<Seq<char>>, Seq<Seq<char>>)>) -> bool {
    let p = parts_of(nodes);
    forall|i: int| 0 <= i < p.len() ==> !#[trigger] stray(p, plain_nodes(nodes), i)
}

/// A document that can be converted.
pub open spec fn convertible(page: Seq<char>) -> bool {
    settled(html::document_nodes(page))
}

// ── The test ────────────────────────────────────────────────────────────────

/// Whether an element emphasizes, strikes out or links what it contains.
fn is_mark_tag(tag: &str) -> (r: bool)
    ensures
        r == mark_tag(tag@),
{
    text::same(tag, "a") || text::same(tag, "b") || text::same(tag, "strong") || text::same(
        tag,
        "i",
    ) || text::same(tag, "em") || text::same(tag, "s") || text::same(tag, "del")
}

/// Whether an element is a paragraph or a division.
fn is_block_tag(tag: &str) -> (r: bool)
    ensures
        r == block_tag(tag@),
{
    text::same(tag, "p") || text::same(tag, "div") || text::same(tag, "section") || text::same(
        tag,
        "header",
    ) || text::same(tag, "footer")
}

/// Whether an element is a heading.
fn is_heading_tag(tag: &str) -> (r: bool)
    ensures
        r == heading_tag(tag@),
{
    text::same(tag, "h1") || text::same(tag, "h2") || text::same(tag, "h3") || text::same(
        tag,
        "h4",
    ) || text::same(tag, "h5") || text::same(tag, "h6")
}

/// What the converter makes of an element inside which no other is converted, or of which
/// something else is written.
fn role_around(tag: &str) -> (r: Role)
    ensures
        r == enclosing_role(tag@),
{
    if text::same(tag, "td") || text::same(tag, "th") {
        Role::Cell
    } else if text::same(tag, "table") {
        Role::Table
    } else if text::same(tag, "iframe") {
        Role::Frame
    } else if text::same(tag, "template") {
        Role::Template
    } else if text::same(tag, "pre") || text::same(tag, "sub") || text::same(tag, "sup") {
        Role::Verbatim
    } else {
        Role::Other
    }
}

/// What the converter makes of an element with the given name.
pub fn role(tag: &str) -> (r: Role)
    ensures
        r == role_of(tag@),
{
    if text::same(tag, "li") {
        Role::Item
    } else if text::same(tag, "ul") || text::same(tag, "ol") || text::same(tag, "menu") {
        Role::List
    } else if is_mark_tag(tag) {
        Role::Mark
    } else if text::same(tag, "q") || text::same(tag, "cite") || text::same(tag, "blockquote") {
        Role::Quote
    } else if is_block_tag(tag) {
        Role::Block
    } else if is_heading_tag(tag) || text::same(tag, "br") || text::same(tag, "hr") || text::same(
        tag,
        "img",
    ) {
        Role::Gap
    } else if text::same(tag, "code") || text::same(tag, "details") || text::same(tag, "summary") {
        Role::Sign
    } else {
        role_around(tag)
    }
}

/// A part of a document.
#[derive(Debug, Clone, Copy)]
pub struct Piece {
    pub depth: usize,
    pub role: Role,
    pub ink: usize,
    pub bare: bool,
}

impl View for Piece {
    type V = Part;

    open spec fn view(&self) -> Part {
        Part { depth: self.depth as nat, role: self.role, ink: self.ink as nat, bare: self.bare }
    }
}

/// The parts behind a list.
pub open spec fn piece_views(v: Seq<Piece>) -> Seq<Part> {
    Seq::new(v.len(), |i: int| v[i]@)
}

/// Whether a character is a letter or a digit of ASCII.
fn is_inky(c: char) -> (r: bool)
    ensures
        r == inky(c),
{
    ('0' <= c && c <= '9') || ('A' <= c && c <= 'Z') || ('a' <= c && c <= 'z')
}

/// Counts the letters and digits of ASCII of a text.
fn count_ink(c: &[char]) -> (r: usize)
    ensures
        r == ink_of(c@),
{
    let mut n: usize = 0;
    let mut i: usize = 0;
    let len: usize = c.len();
    while i < len
        invariant
            n <= i <= len,
            len == c@.len(),
            n == ink_of(c@.take(i as int)),
        decreases len - i,
    {
        assert(c@.take(i + 1).drop_last() =~= c@.take(i as int));
        if is_inky(c[i]) {
            n += 1;
        }
        i += 1;
    }
    assert(c@.take(i as int) =~= c@);
    n
}

/// Whether the words of an element hold an attribute with the name `name`.
fn is_named(words: &[String]) -> (r: bool)
    ensures
        r == named(text::views(words@)),
{
    let ghost v = text::views(words@);
    let mut k: usize = 0;
    while k < words.len()
        invariant
            k <= words@.len(),
            v == text::views(words@),
            forall|j: int| 0 <= j < k && j % 2 == 0 ==> #[trigger] v[j] != "name"@,
        decreases words@.len() - k,
    {
        assert(v[k as int] == words@[k as int]@);
        if k % 2 == 0 && text::same(words[k].as_str(), "name") {
            return true;
        }
        k += 1;
    }
    false
}

/// The part that a node of the document makes.
fn piece(n: &html::Node) -> (r: Piece)
    ensures
        r@ == part_of(n@),
{
    match &n.name {
        Some(tag) => {
            let role = if text::same(tag.as_str(), "a") && is_named(&n.words) {
                Role::Sign
            } else {
                role(tag.as_str())
            };
            Piece { depth: n.depth, role, ink: 0, bare: false }
        },
        None => if n.words.len() == 0 {
            Piece { depth: n.depth, role: Role::Other, ink: 0, bare: false }
        } else {
            assert(n@.2[0] == n.words@[0]@);
            let c = text::to_chars(n.words[0].as_str());
            Piece {
                depth: n.depth,
                role: Role::Text,
                ink: count_ink(&c),
                bare: c.len() > 0 && is_inky(c[0]),
            }
        },
    }
}

/// Whether a text is in ASCII and stays so when its percent signs are resolved.
fn is_plain(s: &str) -> (r: bool)
    ensures
        r == plain(s@),
{
    let c = text::to_chars(s);
    let mut i: usize = 0;
    while i < c.len()
        invariant
            i <= c@.len(),
            c@ == s@,
            forall|j: int| 0 <= j < i ==> (#[trigger] c@[j]) as u32 <= 0x7f,
            forall|j: int|
                0 <= j < i && j + 1 < c@.len() && #[trigger] c@[j] == '%' ==> !high_digit(
                    c@[j + 1],
                ),
        decreases c@.len() - i,
    {
        if c[i] as u32 > 0x7f {
            return false;
        }
        if c[i] == '%' && c.len() - i > 1 {
            let d = c[i + 1];
            if d == '8' || d == '9' || ('A' <= d && d <= 'F') || ('a' <= d && d <= 'f') {
                assert(c@[i as int] == '%' && high_digit(c@[i + 1]));
                return false;
            }
        }
        i += 1;
    }
    true
}

/// Whether everything of a node is plain.
fn is_plain_node(n: &html::Node) -> (r: bool)
    ensures
        r == plain_node(n@),
{
    if let Some(tag) = &n.name {
        if !is_plain(tag.as_str()) {
            return false;
        }
    }
    let mut k: usize = 0;
    while k < n.words.len()
        invariant
            k <= n.words@.len(),
            n@.2 == text::views(n.words@),
            forall|j: int| 0 <= j < k ==> plain(#[trigger] n@.2[j]),
        decreases n.words@.len() - k,
    {
        assert(n@.2[k as int] == n.words@[k as int]@);
        if !is_plain(n.words[k].as_str()) {
            assert(!plain(n@.2[k as int]));
            return false;
        }
        k += 1;
    }
    assert(n@.2.len() == n.words@.len());
    true
}

/// Whether everything of a document is plain.
fn are_plain(nodes: &[html::Node]) -> (r: bool)
    ensures
        r == plain_nodes(html::node_views(nodes@)),
{
    let ghost v = html::node_views(nodes@);
    let mut i: usize = 0;
    while i < nodes.len()
        invariant
            i <= nodes@.len(),
            v == html::node_views(nodes@),
            forall|j: int| 0 <= j < i ==> plain_node(#[trigger] v[j]),
        decreases nodes@.len() - i,
    {
        assert(v[i as int] == nodes@[i as int]@);
        if !is_plain_node(&nodes[i]) {
            assert(!plain_node(v[i as int]));
            return false;
        }
        i += 1;
    }
    true
}

proof fn lemma_last_above(p: Seq<Part>, k: int, d: nat)
    requires
        k < p.len(),
    ensures
        -1 <= last_above(p, k, d),
        k >= 0 ==> last_above(p, k, d) <= k,
        last_above(p, k, d) >= 0 ==> p[last_above(p, k, d)].depth < d,
    decreases k + 1,
{
    if k >= 0 && p[k].depth >= d {
        lemma_last_above(p, k - 1, d);
    }
}

/// What is not less deep than a part that is too deep can be passed over with it.
proof fn lemma_above_skip(p: Seq<Part>, k: int, c: nat, d: nat)
    requires
        k < p.len(),
        d <= c,
    ensures
        last_above(p, k, d) == last_above(p, last_above(p, k, c), d),
    decreases k + 1,
{
    if k >= 0 && p[k].depth >= c {
        lemma_above_skip(p, k - 1, c, d);
    }
}

proof fn lemma_first_beside(p: Seq<Part>, k: int, d: nat)
    requires
        k <= p.len(),
    ensures
        k <= first_beside(p, k, d) <= p.len(),
    decreases p.len() - k,
{
    if k < p.len() && p[k].depth > d {
        lemma_first_beside(p, k + 1, d);
    }
}

/// What is deeper than a part that is too deep can be passed over with it.
proof fn lemma_beside_skip(p: Seq<Part>, k: int, c: nat, d: nat)
    requires
        k <= p.len(),
        d <= c,
    ensures
        first_beside(p, k, d) == first_beside(p, first_beside(p, k, c), d),
    decreases p.len() - k,
{
    if k < p.len() && p[k].depth > c {
        lemma_beside_skip(p, k + 1, c, d);
    }
}

/// For each part one more than the place of the part that contains it directly.
fn parents(v: &[Piece]) -> (r: Vec<usize>)
    ensures
        all_parents(piece_views(v@), r@),
{
    let ghost p = piece_views(v@);
    let mut r: Vec<usize> = Vec::new();
    let mut j: usize = 0;
    while j < v.len()
        invariant
            j <= v@.len(),
            p == piece_views(v@),
            r@.len() == j,
            forall|x: int| 0 <= x < j ==> (#[trigger] r@[x]) == parent(p, x) + 1 && r@[x] <= x,
        decreases v@.len() - j,
    {
        let d: usize = v[j].depth;
        let mut k: usize = j;
        while k > 0 && v[k - 1].depth >= d
            invariant
                k <= j < v@.len(),
                p == piece_views(v@),
                d == p[j as int].depth,
                r@.len() == j,
                forall|x: int|
                    0 <= x < j ==> (#[trigger] r@[x]) == parent(p, x) + 1 && r@[x] <= x,
                last_above(p, k - 1, d as nat) == parent(p, j as int),
            decreases k,
        {
            proof {
                lemma_above_skip(p, k - 2, p[k - 1].depth, d as nat);
            }
            k = r[k - 1];
        }
        r.push(k);
        j += 1;
    }
    r
}

/// For each part the first part behind it and all that it contains.
fn all_ends(v: &[Piece]) -> (r: Vec<usize>)
    ensures
        r@.len() == v@.len(),
        forall|j: int| 0 <= j < v@.len() ==> (#[trigger] r@[j]) == end(piece_views(v@), j),
{
    let ghost p = piece_views(v@);
    let n: usize = v.len();
    let mut r: Vec<usize> = Vec::new();
    let mut c: usize = 0;
    while c < n
        invariant
            c <= n,
            r@.len() == c,
        decreases n - c,
    {
        r.push(n);
        c += 1;
    }
    let mut j: usize = n;
    while j > 0
        invariant
            j <= n,
            n == v@.len(),
            n == r@.len(),
            p == piece_views(v@),
            forall|x: int| j <= x < n ==> (#[trigger] r@[x]) == end(p, x),
        decreases j,
    {
        j -= 1;
        let d: usize = v[j].depth;
        let mut k: usize = j + 1;
        while k < n && v[k].depth > d
            invariant
                j < k <= n,
                n == v@.len(),
                n == r@.len(),
                p == piece_views(v@),
                d == p[j as int].depth,
                forall|x: int| j < x < n ==> (#[trigger] r@[x]) == end(p, x),
                first_beside(p, k as int, d as nat) == end(p, j as int),
            decreases n - k,
        {
            proof {
                lemma_first_beside(p, k + 1, p[k as int].depth);
                lemma_beside_skip(p, k + 1, p[k as int].depth, d as nat);
            }
            k = r[k];
        }
        r.set(j, k);
    }
    r
}

/// Whether the contents of an element with the role are not written where it stands.
fn is_bounds(r: Role) -> (b: bool)
    ensures
        b == bounds(r),
{
    r == Role::Cell || r == Role::Table || r == Role::Frame
}

/// One more than the place of the part that contains each directly, none of them behind it.
spec fn all_parents(p: Seq<Part>, up: Seq<usize>) -> bool {
    &&& up.len() == p.len()
    &&& forall|j: int| 0 <= j < p.len() ==> (#[trigger] up[j]) == parent(p, j) + 1 && up[j] <= j
}

/// One more than the place of the owner of each, none of them behind it.
spec fn all_owners(p: Seq<Part>, own: Seq<usize>) -> bool {
    &&& own.len() == p.len()
    &&& forall|j: int| 0 <= j < p.len() ==> (#[trigger] own[j]) == owner(p, j) + 1 && own[j] <= j
}

/// Whether each is below something with the role.
spec fn all_below(p: Seq<Part>, role: Role, marks: Seq<bool>) -> bool {
    &&& marks.len() == p.len()
    &&& forall|j: int| 0 <= j < p.len() ==> (#[trigger] marks[j]) == below(p, j, role)
}

/// For each part one more than the place of its owner.
fn owners(v: &[Piece], up: &[usize]) -> (r: Vec<usize>)
    requires
        all_parents(piece_views(v@), up@),
    ensures
        all_owners(piece_views(v@), r@),
{
    let ghost p = piece_views(v@);
    let mut r: Vec<usize> = Vec::new();
    let mut j: usize = 0;
    while j < v.len()
        invariant
            j <= v@.len(),
            p == piece_views(v@),
            all_parents(p, up@),
            r@.len() == j,
            forall|x: int| 0 <= x < j ==> (#[trigger] r@[x]) == owner(p, x) + 1 && r@[x] <= x,
        decreases v@.len() - j,
    {
        let u: usize = up[j];
        let o: usize = if u == 0 || is_bounds(v[u - 1].role) {
            u
        } else {
            r[u - 1]
        };
        assert(o == owner(p, j as int) + 1);
        r.push(o);
        j += 1;
    }
    r
}

/// For each part whether it is below something with the role.
fn belows(v: &[Piece], up: &[usize], role: Role) -> (r: Vec<bool>)
    requires
        all_parents(piece_views(v@), up@),
    ensures
        all_below(piece_views(v@), role, r@),
{
    let ghost p = piece_views(v@);
    let mut r: Vec<bool> = Vec::new();
    let mut j: usize = 0;
    while j < v.len()
        invariant
            j <= v@.len(),
            p == piece_views(v@),
            all_parents(p, up@),
            r@.len() == j,
            forall|x: int| 0 <= x < j ==> (#[trigger] r@[x]) == below(p, x, role),
        decreases v@.len() - j,
    {
        let u: usize = up[j];
        let b = u > 0 && !is_bounds(v[u - 1].role) && (v[u - 1].role == role || r[u - 1]);
        assert(b == below(p, j as int, role));
        r.push(b);
        j += 1;
    }
    r
}

/// Whether every cell is one of a table, and there is no template.
fn is_proper(v: &[Piece], own: &[usize]) -> (r: bool)
    requires
        all_owners(piece_views(v@), own@),
    ensures
        r == proper(piece_views(v@)),
{
    let ghost p = piece_views(v@);
    let mut j: usize = 0;
    while j < v.len()
        invariant
            j <= v@.len(),
            p == piece_views(v@),
            all_owners(p, own@),
            forall|x: int| 0 <= x < j ==> #[trigger] proper_at(p, x),
        decreases v@.len() - j,
    {
        let o: usize = own[j];
        let role = v[j].role;
        if role == Role::Template || (role == Role::Cell && !(o > 0 && v[o - 1].role
            == Role::Table)) {
            assert(!proper_at(p, j as int));
            return false;
        }
        assert(proper_at(p, j as int));
        j += 1;
    }
    true
}

/// What is known of the places of the parts of a document.
struct Layout {
    pieces: Vec<Piece>,
    /// One more than the place of the part that contains each directly.
    up: Vec<usize>,
    ends: Vec<usize>,
    /// One more than the place of the owner of each.
    owners: Vec<usize>,
    in_list: Vec<bool>,
    inert: Vec<bool>,
    pure_ascii: bool,
    proper: bool,
}

impl Layout {
    spec fn parts(&self) -> Seq<Part> {
        piece_views(self.pieces@)
    }

    /// Everything that is known is right.
    spec fn wf(&self) -> bool {
        let p = self.parts();
        &&& all_parents(p, self.up@)
        &&& all_owners(p, self.owners@)
        &&& all_below(p, Role::List, self.in_list@)
        &&& all_below(p, Role::Verbatim, self.inert@)
        &&& self.ends@.len() == p.len()
        &&& forall|j: int| 0 <= j < p.len() ==> (#[trigger] self.ends@[j]) == end(p, j)
        &&& self.proper == proper(p)
    }

    fn first_ink_of(&self, s: usize) -> (r: usize)
        requires
            self.wf(),
        ensures
            r == first_ink(self.parts(), s - 1, 0),
            r <= self.pieces@.len(),
    {
        let n: usize = self.pieces.len();
        let mut j: usize = 0;
        while j < n
            invariant
                j <= n,
                n == self.pieces@.len(),
                self.wf(),
                first_ink(self.parts(), s - 1, 0) == first_ink(self.parts(), s - 1, j as int),
            decreases n - j,
        {
            if self.pieces[j].ink > 0 && self.owners[j] == s {
                return j;
            }
            j += 1;
        }
        n
    }

    fn margin_of(&self, s: usize, f: usize) -> (r: u128)
        requires
            self.wf(),
            f == first_ink(self.parts(), s - 1, 0),
            f <= self.pieces@.len(),
        ensures
            r == margin(self.parts(), s - 1),
    {
        let mut sum: u128 = 0;
        let mut j: usize = 0;
        while j < f
            invariant
                j <= f <= self.pieces@.len(),
                self.wf(),
                sum <= 4 * j,
                sum == lead(self.parts(), s - 1, f as int, j as int),
            decreases f - j,
        {
            if self.owners[j] == s {
                match self.pieces[j].role {
                    Role::Text => {
                        sum += 1;
                    },
                    Role::Mark | Role::Sign | Role::Other | Role::Cell => {},
                    Role::Item => {
                        if self.in_list[j] {
                            sum += 4;
                        }
                    },
                    Role::Block => {
                        sum += if f < self.ends[j] {
                            2
                        } else {
                            4
                        };
                    },
                    _ => {
                        sum += 4;
                    },
                }
            }
            j += 1;
        }
        if f < self.pieces.len() && !self.pieces[f].bare {
            sum + 1
        } else {
            sum
        }
    }

    fn closed_before(&self, s: usize, f: usize, i: usize) -> (r: u128)
        requires
            self.wf(),
            i <= self.pieces@.len(),
        ensures
            r == closed_count(self.parts(), s - 1, f as int, i as int, i as int),
            r <= i,
    {
        let mut count: u128 = 0;
        let mut k: usize = 0;
        while k < i
            invariant
                k <= i <= self.pieces@.len(),
                self.wf(),
                count <= k,
                count == closed_count(self.parts(), s - 1, f as int, i as int, k as int),
            decreases i - k,
        {
            if self.pieces[k].role == Role::Block && self.owners[k] == s && !self.inert[k]
                && !self.in_list[k] && f < self.ends[k] && self.ends[k] <= i {
                count += 1;
            }
            k += 1;
        }
        count
    }

    /// Whether the parts from `a` up to `b` write at least `need` letters and digits.
    fn has_ink(&self, s: usize, a: usize, b: usize, need: u128) -> (r: bool)
        requires
            self.wf(),
            a <= b <= self.pieces@.len(),
        ensures
            r == (need <= inked(self.parts(), s - 1, a as int, b as int)),
    {
        let mut left: u128 = need;
        let mut j: usize = a;
        while j < b
            invariant
                a <= j <= b <= self.pieces@.len(),
                self.wf(),
                left + inked(self.parts(), s - 1, a as int, j as int) == need,
            decreases b - j,
        {
            if self.owners[j] == s {
                let ink = self.pieces[j].ink as u128;
                if left <= ink {
                    proof {
                        lemma_inked_grows(self.parts(), s - 1, a as int, j + 1, b as int);
                    }
                    return true;
                }
                left = left - ink;
            }
            j += 1;
        }
        left == 0
    }

    fn is_opening(&self, s: usize, m: usize) -> (r: bool)
        requires
            self.wf(),
            m < self.pieces@.len(),
        ensures
            r == opening(self.parts(), s - 1, m as int),
    {
        let mut j: usize = 0;
        while j < m
            invariant
                j <= m < self.pieces@.len(),
                self.wf(),
                forall|x: int| 0 <= x < j ==> #[trigger] unwritten(self.parts(), s - 1, m as int, x),
            decreases m - j,
        {
            let role = self.pieces[j].role;
            if self.owners[j] == s && role != Role::Other && !(role == Role::Item
                && !self.in_list[j]) && !(role == Role::Mark && m < self.ends[j]) {
                assert(!unwritten(self.parts(), s - 1, m as int, j as int));
                return false;
            }
            assert(unwritten(self.parts(), s - 1, m as int, j as int));
            j += 1;
        }
        true
    }

    fn is_balanced(&self, s: usize, m: usize, i: usize) -> (r: bool)
        requires
            self.wf(),
            m < i < self.pieces@.len(),
        ensures
            r == balanced(self.parts(), s - 1, m as int, i as int),
    {
        let f = self.first_ink_of(s);
        let w = self.margin_of(s, f);
        if w == 0 {
            return true;
        }
        if f >= m {
            return false;
        }
        let back: u128 = 8 * self.closed_before(s, f, i);
        proof {
            lemma_first_beside(self.parts(), m + 1, self.parts()[m as int].depth);
        }
        if w <= back {
            return true;
        }
        self.has_ink(s, m + 1, self.ends[m], w - back)
    }

    fn is_steady(&self, s: usize, m: usize, i: usize) -> (r: bool)
        requires
            self.wf(),
            m < i < self.pieces@.len(),
        ensures
            r == steady(self.parts(), self.pure_ascii, s - 1, m as int, i as int),
    {
        (self.pieces[m].role == Role::Mark && self.is_opening(s, m)) || (self.pure_ascii
            && self.is_balanced(s, m, i))
    }

    fn is_shaken(&self, s: usize, i: usize) -> (r: bool)
        requires
            self.wf(),
            i < self.pieces@.len(),
        ensures
            r == shaken(self.parts(), self.pure_ascii, s - 1, i as int, i as int),
    {
        let mut j: usize = i;
        while self.up[j] > 0
            invariant
                j <= i < self.pieces@.len(),
                self.wf(),
                shaken(self.parts(), self.pure_ascii, s - 1, i as int, i as int) == shaken(
                    self.parts(),
                    self.pure_ascii,
                    s - 1,
                    i as int,
                    j as int,
                ),
            decreases j,
        {
            let a: usize = self.up[j] - 1;
            let role = self.pieces[a].role;
            if is_bounds(role) {
                return false;
            }
            if (role == Role::Mark || role == Role::Quote) && !self.is_steady(s, a, i) {
                return true;
            }
            j = a;
        }
        false
    }

    fn is_reached(&self, s: usize) -> (r: bool)
        requires
            self.wf(),
            s <= self.pieces@.len(),
        ensures
            r == reached(self.parts(), s - 1),
    {
        if s == 0 {
            return true;
        }
        let c: usize = s - 1;
        if self.pieces[c].role != Role::Cell {
            return false;
        }
        let t: usize = self.owners[c];
        !(t > 0 && self.inert[t - 1] && self.owners[t - 1] == 0)
    }

    fn is_stray(&self, i: usize) -> (r: bool)
        requires
            self.wf(),
            i < self.pieces@.len(),
        ensures
            r == stray(self.parts(), self.pure_ascii, i as int),
    {
        if self.pieces[i].role != Role::Item || self.in_list[i] || self.inert[i] {
            return false;
        }
        let s: usize = self.owners[i];
        !self.proper || (self.is_reached(s) && self.is_shaken(s, i))
    }

    /// What is to be known of the places of the parts of a document.
    fn of(pieces: Vec<Piece>, pure_ascii: bool) -> (r: Layout)
        ensures
            r.wf(),
            r.pieces == pieces,
            r.pure_ascii == pure_ascii,
    {
        let up = parents(&pieces);
        let ends = all_ends(&pieces);
        let owners = owners(&pieces, &up);
        let in_list = belows(&pieces, &up, Role::List);
        let inert = belows(&pieces, &up, Role::Verbatim);
        let proper = is_proper(&pieces, &owners);
        Layout { pieces, up, ends, owners, in_list, inert, pure_ascii, proper }
    }
}

proof fn lemma_inked_grows(p: Seq<Part>, s: int, a: int, b: int, c: int)
    requires
        b <= c,
    ensures
        inked(p, s, a, b) <= inked(p, s, a, c),
    decreases c - b,
{
    if b < c && a < c {
        lemma_inked_grows(p, s, a, b, c - 1);
    }
}

/// Whether no list item of a document puts a note in the wrong place.
pub fn all_settled(nodes: &[html::Node]) -> (r: bool)
    ensures
        r == settled(html::node_views(nodes@)),
{
    let ghost v = html::node_views(nodes@);
    let mut pieces: Vec<Piece> = Vec::new();
    let mut i: usize = 0;
    while i < nodes.len()
        invariant
            i <= nodes@.len(),
            v == html::node_views(nodes@),
            piece_views(pieces@) == parts_of(v).take(i as int),
        decreases nodes@.len() - i,
    {
        let ghost before = piece_views(pieces@);
        pieces.push(piece(&nodes[i]));
        assert(v[i as int] == nodes@[i as int]@);
        assert(piece_views(pieces@) =~= before.push(parts_of(v)[i as int]));
        assert(parts_of(v).take(i + 1) =~= parts_of(v).take(i as int).push(parts_of(v)[i as int]));
        i += 1;
    }
    assert(parts_of(v).take(i as int) =~= parts_of(v));
    assert(piece_views(pieces@).len() == pieces@.len());
    let layout = Layout::of(pieces, are_plain(nodes));
    let n: usize = nodes.len();
    let mut k: usize = 0;
    while k < n
        invariant
            k <= n,
            v == html::node_views(nodes@),
            n == layout.pieces@.len(),
            layout.wf(),
            layout.parts() == parts_of(v),
            layout.pure_ascii == plain_nodes(v),
            forall|x: int| 0 <= x < k ==> !#[trigger] stray(parts_of(v), plain_nodes(v), x),
        decreases n - k,
    {
        if layout.is_stray(k) {
            assert(stray(parts_of(v), plain_nodes(v), k as int));
            return false;
        }
        k += 1;
    }
    true
}

/// Whether a document can be converted to Markdown.
pub fn can_convert(page: &str) -> (r: bool)
    ensures
        r == convertible(page@),
{
    all_settled(&html::nodes(page))
}

// ── Laws ────────────────────────────────────────────────────────────────────

/// A document in which every list item is in a list can be converted, whatever else it holds.
pub proof fn items_of_lists_are_no_hindrance(
    nodes: Seq<(nat, Option<Seq<char>>, Seq<Seq<char>>)>,
)
    requires
        forall|i: int|
            0 <= i < nodes.len() && (#[trigger] parts_of(nodes)[i]).role == Role::Item ==> below(
                parts_of(nodes),
                i,
                Role::List,
            ),
    ensures
        settled(nodes),
{
    let p = parts_of(nodes);
    assert forall|i: int| 0 <= i < p.len() implies !#[trigger] stray(p, plain_nodes(nodes), i) by {
        assert(p[i].role == Role::Item ==> below(p, i, Role::List));
    }
}

/// A page without any list item can be converted, whatever else is on it.
pub proof fn pages_without_items_are_convertible(page: Seq<char>)
    requires
        forall|i: int|
            0 <= i < html::document_nodes(page).len() ==> (#[trigger] html::document_nodes(
                page,
            )[i]).1 != Some("li"@),
    ensures
        convertible(page),
{
    let nodes = html::document_nodes(page);
    let p = parts_of(nodes);
    assert forall|i: int| 0 <= i < p.len() implies !#[trigger] stray(p, plain_nodes(nodes), i) by {
        let n = nodes[i];
        assert(p[i] == part_of(n));
    }
}

/// Where something with the role contains the part at `i` and nothing bounds what it contains,
/// the part is below it.
proof fn lemma_below(p: Seq<Part>, role: Role, i: int, j: int)
    requires
        0 <= j < i < p.len(),
        p[j].role == role,
        forall|k: int| 0 <= k < p.len() ==> !bounds((#[trigger] p[k]).role),
        forall|k: int| j < k <= i ==> (#[trigger] p[k]).depth > p[j].depth,
    ensures
        below(p, i, role),
    decreases i,
{
    lemma_last_above(p, i - 1, p[i].depth);
    lemma_above_reaches(p, i - 1, p[i].depth, j);
    let a = parent(p, i);
    assert(p[a].depth < p[i].depth);
    if a > j {
        lemma_below(p, role, a, j);
    }
}

proof fn lemma_above_reaches(p: Seq<Part>, k: int, d: nat, j: int)
    requires
        0 <= j <= k < p.len(),
        p[j].depth < d,
    ensures
        last_above(p, k, d) >= j,
    decreases k,
{
    if p[k].depth >= d {
        lemma_above_reaches(p, k - 1, d, j);
    }
}

/// A page without tables, frames and templates can be converted if each of its list items stands
/// in a list: behind the beginning of one, with nothing between the two that is not deeper than
/// the list itself.
pub proof fn pages_with_lists_are_convertible(page: Seq<char>)
    requires
        ({
            let n = html::document_nodes(page);
            &&& forall|i: int|
                0 <= i < n.len() ==> {
                    let name = (#[trigger] n[i]).1;
                    name != Some("table"@) && name != Some("td"@) && name != Some("th"@) && name
                        != Some("iframe"@) && name != Some("template"@)
                }
            &&& forall|i: int|
                0 <= i < n.len() && (#[trigger] n[i]).1 == Some("li"@) ==> exists|j: int|
                    0 <= j < i && ((#[trigger] n[j]).1 == Some("ul"@) || n[j].1 == Some("ol"@))
                        && forall|k: int| j < k <= i ==> (#[trigger] n[k]).0 > n[j].0
        }),
    ensures
        convertible(page),
{
    let n = html::document_nodes(page);
    let p = parts_of(n);
    lemma_list_names();
    assert forall|i: int| 0 <= i < p.len() implies !bounds((#[trigger] p[i]).role) by {
        let x = n[i];
        assert(p[i] == part_of(x));
    }
    assert forall|i: int|
        0 <= i < n.len() && (#[trigger] parts_of(n)[i]).role == Role::Item implies below(
        parts_of(n),
        i,
        Role::List,
    ) by {
        let x = n[i];
        assert(p[i] == part_of(x));
        assert(x.1 == Some("li"@));
        let j = choose|j: int|
            0 <= j < i && ((#[trigger] n[j]).1 == Some("ul"@) || n[j].1 == Some("ol"@))
                && forall|k: int| j < k <= i ==> (#[trigger] n[k]).0 > n[j].0;
        assert(p[j] == part_of(n[j]));
        assert(p[j].role == Role::List);
        assert forall|k: int| j < k <= i implies (#[trigger] p[k]).depth > p[j].depth by {
            let y = n[k];
            assert(p[k] == part_of(y));
        }
        lemma_below(p, Role::List, i, j);
    }
    items_of_lists_are_no_hindrance(n);
}

proof fn lemma_list_names()
    ensures
        role_of("ul"@) == Role::List,
        role_of("ol"@) == Role::List,
        "ul"@ != "a"@,
        "ol"@ != "a"@,
{
    reveal_strlit("li");
    reveal_strlit("ul");
    reveal_strlit("ol");
    reveal_strlit("a");
    assert("ul"@[0] == 'u' && "ol"@[0] == 'o' && "li"@[0] == 'l');
    assert("a"@.len() == 1 && "ul"@.len() == 2 && "ol"@.len() == 2);
}

} // verus!
