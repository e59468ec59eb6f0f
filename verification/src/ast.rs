use vstd::prelude::*;

use crate::attributes::pairs_to_map_opt;
use crate::span::Span;
use crate::text::str_eq;

verus! {

/// A parsed document: an optional header followed by its blocks.
#[derive(Debug, PartialEq)]
pub struct Document {
    /// An optional header, containing a title, maybe author and version info,
    /// and some attributes
    pub header: Option<DocumentHeader>,
    /// The contents of the document
    pub content: Blocks,
}

#[derive(Debug, PartialEq, Clone)]
pub struct DocumentHeader {
    /// The document's level-0 title
    pub title: Span,
    /// The document's author (reserved; the grammar leaves it empty)
    pub author: Option<Author>,
    /// Document version information (reserved; the grammar leaves it empty)
    pub version: Option<Version>,
    /// Document-wide attributes
    pub attributes: Vec<DocAttribute>,
}

#[derive(Debug, PartialEq, Clone)]
pub struct Author {
    /// Full name of the author, e.g. "John Doe"
    pub full_name: Span,
}

#[derive(Debug, PartialEq, Clone)]
pub struct Version {
    /// Version, e.g. `v1.3.0`
    pub version: Span,
    /// RFC-3339 date of the document, e.g. `2020-07-31T09:30:00Z`
    pub date: Span,
}

/// A list of blocks
pub type Blocks = Vec<Block>;

/// A mapping from attribute name to optional value that remembers the order
/// in which pairs were inserted; `get` returns the value of the last pair
/// with the given name.
#[derive(Debug, PartialEq, Clone)]
pub struct AttributeList {
    items: Vec<(String, Option<String>)>,
}

impl View for AttributeList {
    type V = Seq<(Seq<char>, Option<Seq<char>>)>;

    closed spec fn view(&self) -> Seq<(Seq<char>, Option<Seq<char>>)> {
        self.items.deep_view()
    }
}

impl AttributeList {
    /// The mapping the pairs define, a later pair overwriting an earlier one
    /// of the same name.
    pub open spec fn as_map(&self) -> Map<Seq<char>, Option<Seq<char>>> {
        pairs_to_map_opt(self@)
    }

    /// The empty attribute list.
    pub fn new() -> (r: Self)
        ensures
            r@ == Seq::<(Seq<char>, Option<Seq<char>>)>::empty(),
    {
        AttributeList { items: Vec::new() }
    }

    /// Build a list from (name, value) pairs, kept in order.
    pub fn from_pairs(pairs: Vec<(String, Option<String>)>) -> (r: Self)
        ensures
            r@ == pairs.deep_view(),
    {
        AttributeList { items: pairs }
    }

    pub fn len(&self) -> (r: usize)
        ensures
            r == self@.len(),
    {
        self.items.len()
    }

    /// The pair at position `i` in insertion order.
    pub fn pair_at(&self, i: usize) -> (r: &(String, Option<String>))
        requires
            i < self@.len(),
        ensures
            r.deep_view() == self@[i as int],
    {
        &self.items[i]
    }

    /// Append a pair; a repeated name means the new value wins in `as_map`.
    pub fn insert(&mut self, name: String, value: Option<String>)
        ensures
            final(self)@ == old(self)@.push((name@, value.deep_view())),
            final(self).as_map() == old(self).as_map().insert(name@, value.deep_view()),
    {
        let ghost before = self.items.deep_view();
        self.items.push((name, value));
        proof {
            assert(self.items.deep_view().drop_last() =~= before);
        }
    }

    /// The value of the last pair named `name`, if any.
    pub fn get(&self, name: &str) -> (r: Option<&Option<String>>)
        ensures
            match r {
                Some(v) => self.as_map().dom().contains(name@) && v.deep_view()
                    == self.as_map()[name@],
                None => !self.as_map().dom().contains(name@),
            },
    {
        let n = self.items.len();
        let mut i: usize = n;
        while i > 0
            invariant
                i <= n == self.items.len(),
                forall|j: int| i <= j < n ==> self.items.deep_view()[j].0 != name@,
            decreases i,
        {
            i = i - 1;
            if str_eq(self.items[i].0.as_str(), name) {
                proof {
                    crate::attributes::lemma_pairs_to_map_found(
                        self.items.deep_view(),
                        name@,
                        i as int,
                    );
                }
                return Some(&self.items[i].1);
            }
        }
        proof {
            crate::attributes::lemma_pairs_to_map_absent(self.items.deep_view(), name@);
        }
        None
    }
}

#[derive(Debug, PartialEq)]
pub struct Block {
    /// The block's context, i.e. its kind
    pub context: Context,
    /// The block's attributes
    pub attributes: AttributeList,
    /// Optional trailing callouts
    pub callouts: Vec<Callout>,
}

#[derive(Debug, PartialEq, Clone)]
pub struct Callout {
    pub number: usize,
    pub text: Span,
}

/// The kind of a block. The grammar in scope produces `Listing`,
/// `BlockMacro`, `ThematicBreak` and `PageBreak`; the other variants belong
/// to the data model and are reserved for grammar extensions.
#[derive(Debug, PartialEq)]
pub enum Context {
    /// A heading, e.g. `== Now for something else`
    SectionTitle(Span, Vec<Block>),
    Admonition { label: Span, blocks: Vec<Block> },
    Example(Vec<Block>),
    Sidebar(Vec<Block>),
    Open(Vec<Block>),
    Listing(Span),
    Literal(Span),
    Paragraph(Span),
    Passthrough(Span),
    Quote(Span),
    Verse(Span),
    List(List),
    Table(Table),
    /// A block macro, `image::foo.png[]`
    BlockMacro(Macro),
    /// A thematic break, `'''`
    ThematicBreak,
    /// A page break, `>>>`
    PageBreak,
}

#[derive(Debug, PartialEq, Clone)]
pub struct Macro {
    pub name: Span,
    pub target: Span,
    pub attribute_list: AttributeList,
}

/// Reserved: the grammar for tables is out of scope.
#[derive(Debug, PartialEq, Clone)]
pub struct Table {}

#[derive(Debug, PartialEq)]
pub enum ListItemKind {
    Unordered,
    Ordered,
    /// Whether the checkbox is checked or not
    Checklist(bool),
    Description(Tags),
}

#[derive(Debug, PartialEq)]
pub struct List {
    pub items: Vec<ListItem>,
}

#[derive(Debug, PartialEq)]
pub struct ListItem {
    pub kind: ListItemKind,
    pub level: usize,
    /// Empty in case of a description list
    pub paragraph: Tags,
    pub blocks: Blocks,
}

#[derive(Debug, PartialEq, Clone)]
pub struct SectionTitle {
    /// From 0 (h1) to 5 (h6), inclusive
    pub level: usize,
    /// Contents of the section title
    pub content: Span,
}

/// A list of tags
pub type Tags = Vec<Tag>;

/// Inline markup. Reserved: the grammar for inline markup is out of scope.
#[derive(Debug, PartialEq)]
pub enum Tag {
    /// A text node
    Text(Span),
    /// An anchor
    Anchor(Span),
    /// Formatting node
    Format(FormatKind, Tags),
    /// A mark, `#like that#` or `like ##th##at`
    Mark(Mark),
    /// A link, like `https://example.org` or `index.html[Docs]`
    Link(Link),
    /// An inline macro, like `image:play.png[]`
    InlineMacro(Macro),
}

#[derive(Debug, PartialEq, Clone, Copy)]
pub enum FormatKind {
    /// `monospace`
    Monospace,
    /// *bold*
    Bold,
    /// _italic_
    Italic,
    /// ^super^script
    Superscript,
    /// ~sub~script
    Subscript,
}

#[derive(Debug, PartialEq)]
pub struct Mark {
    /// Contents of the mark, may contain markup
    pub content: Tags,
    /// Mark attributes, like `id`, `role`, `option`
    pub attributes: Option<Vec<Attribute>>,
}

#[derive(Debug, PartialEq)]
pub struct Link {
    /// Target of the link, e.g. `https://example.org`
    pub href: Span,
    /// Contents of the link tag, i.e. `Example Domain`
    pub content: Option<Tags>,
    /// Link attributes, like `id`, `role`, `option`
    pub attributes: Vec<Attribute>,
}

#[derive(Debug, PartialEq, Clone)]
pub enum Attribute {
    /// e.g. `#free_the_world`
    Id(Span),
    /// e.g. `.goal`
    Role(Span),
    /// e.g. `%hardbreaks`
    Option(Span),
}

#[derive(Debug, PartialEq, Clone)]
pub struct DocAttribute {
    /// The id of the attribute, e.g. the toc in `:toc:`
    pub id: Span,
    /// Whether this attribute is unset
    pub unset: bool,
    /// The attribute value which may span multiple lines
    pub value: Vec<Span>,
}

// ----- views ------------------------------------------------------------
//
// Each parse result is pinned down through these views: the text of every
// span, and the structure around it. The reserved container and inline
// variants carry their exec values through unchanged.

pub ghost struct DocumentV {
    pub header: Option<DocumentHeaderV>,
    pub content: Seq<BlockV>,
}

pub ghost struct DocumentHeaderV {
    pub title: Seq<char>,
    pub author: Option<AuthorV>,
    pub version: Option<VersionV>,
    pub attributes: Seq<DocAttributeV>,
}

pub ghost struct AuthorV {
    pub full_name: Seq<char>,
}

pub ghost struct VersionV {
    pub version: Seq<char>,
    pub date: Seq<char>,
}

pub ghost struct BlockV {
    pub context: ContextV,
    pub attributes: Seq<(Seq<char>, Option<Seq<char>>)>,
    pub callouts: Seq<CalloutV>,
}

pub ghost struct CalloutV {
    pub number: nat,
    pub text: Seq<char>,
}

pub ghost enum ContextV {
    SectionTitle(Seq<char>, Seq<Block>),
    Admonition { label: Seq<char>, blocks: Seq<Block> },
    Example(Seq<Block>),
    Sidebar(Seq<Block>),
    Open(Seq<Block>),
    Listing(Seq<char>),
    Literal(Seq<char>),
    Paragraph(Seq<char>),
    Passthrough(Seq<char>),
    Quote(Seq<char>),
    Verse(Seq<char>),
    List(List),
    Table(Table),
    BlockMacro(MacroV),
    ThematicBreak,
    PageBreak,
}

pub ghost struct MacroV {
    pub name: Seq<char>,
    pub target: Seq<char>,
    pub attribute_list: Seq<(Seq<char>, Option<Seq<char>>)>,
}

pub ghost struct SectionTitleV {
    pub level: nat,
    pub content: Seq<char>,
}

pub ghost struct DocAttributeV {
    pub id: Seq<char>,
    pub unset: bool,
    pub value: Seq<Seq<char>>,
}

impl View for Macro {
    type V = MacroV;

    open spec fn view(&self) -> MacroV {
        MacroV { name: self.name@, target: self.target@, attribute_list: self.attribute_list@ }
    }
}

impl View for Callout {
    type V = CalloutV;

    open spec fn view(&self) -> CalloutV {
        CalloutV { number: self.number as nat, text: self.text@ }
    }
}

impl View for Context {
    type V = ContextV;

    open spec fn view(&self) -> ContextV {
        match self {
            Context::SectionTitle(t, bs) => ContextV::SectionTitle(t@, bs@),
            Context::Admonition { label, blocks } => ContextV::Admonition {
                label: label@,
                blocks: blocks@,
            },
            Context::Example(bs) => ContextV::Example(bs@),
            Context::Sidebar(bs) => ContextV::Sidebar(bs@),
            Context::Open(bs) => ContextV::Open(bs@),
            Context::Listing(s) => ContextV::Listing(s@),
            Context::Literal(s) => ContextV::Literal(s@),
            Context::Paragraph(s) => ContextV::Paragraph(s@),
            Context::Passthrough(s) => ContextV::Passthrough(s@),
            Context::Quote(s) => ContextV::Quote(s@),
            Context::Verse(s) => ContextV::Verse(s@),
            Context::List(l) => ContextV::List(*l),
            Context::Table(t) => ContextV::Table(*t),
            Context::BlockMacro(m) => ContextV::BlockMacro(m@),
            Context::ThematicBreak => ContextV::ThematicBreak,
            Context::PageBreak => ContextV::PageBreak,
        }
    }
}

impl View for Block {
    type V = BlockV;

    open spec fn view(&self) -> BlockV {
        BlockV {
            context: self.context@,
            attributes: self.attributes@,
            callouts: self.callouts.deep_view(),
        }
    }
}

impl DeepView for Block {
    type V = BlockV;

    open spec fn deep_view(&self) -> BlockV {
        self.view()
    }
}

impl DeepView for Callout {
    type V = CalloutV;

    open spec fn deep_view(&self) -> CalloutV {
        self.view()
    }
}

impl View for SectionTitle {
    type V = SectionTitleV;

    open spec fn view(&self) -> SectionTitleV {
        SectionTitleV { level: self.level as nat, content: self.content@ }
    }
}

impl View for DocAttribute {
    type V = DocAttributeV;

    open spec fn view(&self) -> DocAttributeV {
        DocAttributeV { id: self.id@, unset: self.unset, value: self.value.deep_view() }
    }
}

impl DeepView for DocAttribute {
    type V = DocAttributeV;

    open spec fn deep_view(&self) -> DocAttributeV {
        self.view()
    }
}

impl View for Author {
    type V = AuthorV;

    open spec fn view(&self) -> AuthorV {
        AuthorV { full_name: self.full_name@ }
    }
}

impl View for Version {
    type V = VersionV;

    open spec fn view(&self) -> VersionV {
        VersionV { version: self.version@, date: self.date@ }
    }
}

impl View for DocumentHeader {
    type V = DocumentHeaderV;

    open spec fn view(&self) -> DocumentHeaderV {
        DocumentHeaderV {
            title: self.title@,
            author: match self.author {
                Some(a) => Some(a@),
                None => None,
            },
            version: match self.version {
                Some(v) => Some(v@),
                None => None,
            },
            attributes: self.attributes.deep_view(),
        }
    }
}

impl View for Document {
    type V = DocumentV;

    open spec fn view(&self) -> DocumentV {
        DocumentV {
            header: match self.header {
                Some(h) => Some(h@),
                None => None,
            },
            content: self.content.deep_view(),
        }
    }
}

} // verus!
