//! The `scraper`, `readability`, `ammonia` and `html2md` crates.

use crate::markup;
use crate::text;
use vstd::prelude::*;

verus! {

/// What the library reads of a selected element.
pub struct Element {
    /// The value of the attribute that was asked for, if the element has it.
    pub attr: Option<String>,
    /// The text nodes below the element, in document order.
    pub text: Vec<String>,
}

impl View for Element {
    type V = (Option<Seq<char>>, Seq<Seq<char>>);

    open spec fn view(&self) -> Self::V {
        (text::opt(self.attr), text::views(self.text@))
    }
}

/// The elements behind a list.
pub open spec fn elements(v: Seq<Element>) -> Seq<(Option<Seq<char>>, Seq<Seq<char>>)> {
    Seq::new(v.len(), |i: int| v[i]@)
}

/// The optional elements behind a list.
pub open spec fn optional_elements(v: Seq<Option<Element>>) -> Seq<
    Option<(Option<Seq<char>>, Seq<Seq<char>>)>,
> {
    Seq::new(
        v.len(),
        |i: int|
            match v[i] {
                Some(e) => Some(e@),
                None => None,
            },
    )
}

/// What the library reads of a node of a document.
pub struct Node {
    /// How many nodes contain it.
    pub depth: usize,
    /// The name of an element; a text has none.
    pub name: Option<String>,
    /// The names and values of an element's attributes, or the characters of a text.
    pub words: Vec<String>,
}

impl View for Node {
    type V = (nat, Option<Seq<char>>, Seq<Seq<char>>);

    open spec fn view(&self) -> Self::V {
        (self.depth as nat, text::opt(self.name), text::views(self.words@))
    }
}

/// The nodes behind a list.
pub open spec fn node_views(v: Seq<Node>) -> Seq<(nat, Option<Seq<char>>, Seq<Seq<char>>)> {
    Seq::new(v.len(), |i: int| v[i]@)
}

/// The nodes of a document from its root element on, each with the number of nodes that contain
/// it, its name and its words. A node comes before what it contains, and that before what
/// follows it.
pub uninterp spec fn document_nodes(html: Seq<char>) -> Seq<
    (nat, Option<Seq<char>>, Seq<Seq<char>>),
>;

/// The elements of a document that a CSS selector matches, in a fixed order, each with the
/// value of one attribute and its text nodes; none where the selector is not valid.
pub uninterp spec fn css_select(html: Seq<char>, css: Seq<char>, attr: Seq<char>) -> Seq<
    (Option<Seq<char>>, Seq<Seq<char>>),
>;

/// For each element that the selector `outer` matches, in a fixed order, the first element
/// below it that `inner` matches; nothing where a selector is not valid.
pub uninterp spec fn css_select_first_within(
    html: Seq<char>,
    outer: Seq<char>,
    inner: Seq<char>,
    attr: Seq<char>,
) -> Seq<Option<(Option<Seq<char>>, Seq<Seq<char>>)>>;

/// Title, content and text of the main article of a page; nothing where the reader fails.
pub uninterp spec fn readable_article(html: Seq<char>, url: Seq<char>) -> Option<
    (Seq<char>, Seq<char>, Seq<char>),
>;

/// A fragment of HTML with everything but a conservative set of tags and attributes removed.
pub uninterp spec fn sanitized(html: Seq<char>) -> Seq<char>;

/// The Markdown notation of a fragment of HTML.
pub uninterp spec fn markdown_of(html: Seq<char>) -> Seq<char>;

/// `NodeRef::descendants` from the root element of the parsed document on, with the number of
/// `ancestors` of each, the local name and the attributes of an element and the characters of a
/// text: they depend on the document alone.
#[verifier::external_body]
pub(crate) fn nodes(html: &str) -> (r: Vec<Node>)
    ensures
        node_views(r@) == document_nodes(html@),
{
    let doc = scraper::Html::parse_document(html);
    let of = |n: &scraper::Node| match n {
        scraper::Node::Element(e) => (
            Some(e.name().to_string()),
            e.attrs().flat_map(|(k, v)| [k.to_string(), v.to_string()]).collect(),
        ),
        scraper::Node::Text(t) => (None, vec![t.to_string()]),
        _ => (None, Vec::new()),
    };
    doc.root_element().descendants().map(|n| (n.ancestors().count(), of(n.value()))).map(
        |(depth, (name, words))| Node { depth, name, words },
    ).collect()
}

/// `Html::select` on the parsed document: the matches and their order depend on the document
/// and the selector alone. No element is found with a selector that `Selector::parse` rejects.
#[verifier::external_body]
pub(crate) fn select(html: &str, css: &str, attr: &str) -> (r: Vec<Element>)
    ensures
        elements(r@) == css_select(html@, css@, attr@),
{
    match scraper::Selector::parse(css) {
        Ok(s) => scraper::Html::parse_document(html).select(&s).map(
            |e| Element {
                attr: e.value().attr(attr).map(|v| v.to_string()),
                text: e.text().map(|t| t.to_string()).collect(),
            },
        ).collect(),
        Err(_) => Vec::new(),
    }
}

/// `ElementRef::select` below each match of `Html::select`: which element comes first depends
/// on the document and the selectors alone.
#[verifier::external_body]
pub(crate) fn select_first_within(html: &str, outer: &str, inner: &str, attr: &str) -> (r: Vec<
    Option<Element>,
>)
    ensures
        optional_elements(r@) == css_select_first_within(html@, outer@, inner@, attr@),
{
    match (scraper::Selector::parse(outer), scraper::Selector::parse(inner)) {
        (Ok(o), Ok(i)) => scraper::Html::parse_document(html).select(&o).map(
            |b| b.select(&i).next().map(
                |e| Element {
                    attr: e.value().attr(attr).map(|v| v.to_string()),
                    text: e.text().map(|t| t.to_string()).collect(),
                },
            ),
        ).collect(),
        _ => Vec::new(),
    }
}

/// The article that `readability::extractor::extract` finds: title, content and text depend on
/// the page and its URL alone. Nothing comes back where the URL does not parse or the reader
/// fails. How deep a page may nest before the stack is exhausted is not stated.
#[verifier::external_body]
pub(crate) fn read_article(html: &str, url: &str) -> (r: Option<(String, String, String)>)
    ensures
        match r {
            Some(p) => readable_article(html@, url@) == Some((p.0@, p.1@, p.2@)),
            None => readable_article(html@, url@) is None,
        },
{
    let base = url::Url::parse(url).ok()?;
    let p = readability::extractor::extract(&mut html.as_bytes(), &base).ok()?;
    Some((p.title, p.content, p.text))
}

/// `ammonia::clean` depends on the fragment alone.
#[verifier::external_body]
pub(crate) fn sanitize(html: &str) -> (r: String)
    ensures
        r@ == sanitized(html@),
{
    ammonia::clean(html)
}

/// `html2md::parse_html` depends on the document alone. A list item that is in no list can put
/// the start of a link, an emphasis or a quotation behind the end of what was written, or inside
/// a character: documents in which that may happen are left out. They are told by the tree that
/// `nodes` shows. `html2md` has its tree from `html5ever` 0.39 and `scraper`, behind `nodes`, from
/// `html5ever` 0.40: the two trees are taken to agree. How deep a document may nest before the
/// stack is exhausted is not stated.
#[verifier::external_body]
pub(crate) fn to_markdown(html: &str) -> (r: String)
    requires
        markup::convertible(html@),
    ensures
        r@ == markdown_of(html@),
{
    html2md::parse_html(html)
}

} // verus!
