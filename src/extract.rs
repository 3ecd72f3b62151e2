//! Metadata of one document: its MIME type from the path, and its front
//! matter and title from the content.
use vstd::prelude::*;
use vstd::utf8::{valid_utf8, decode_utf8, encode_utf8, decode_utf8_encode_utf8};
use crate::history::CommitTime;
use markdown::mdast::Node;

verus! {

#[verifier::external_type_specification]
#[verifier::external_body]
pub struct ExYamlValue(serde_yaml::Value);

/// A top-level block of a parsed Markdown document, as far as metadata
/// extraction reads it.
#[derive(Clone, Debug)]
pub enum MdBlock {
    /// A YAML front-matter block, with its source.
    Yaml(String),
    /// A TOML front-matter block, with its source.
    Toml(String),
    /// A heading of the given rank, with its text.
    Heading(u8, String),
    Other,
}

#[verifier::external_type_specification]
#[verifier::external_body]
pub struct ExTomlValue(toml::Value);

/// The front matter of a document: the parsed YAML or TOML document, or
/// the parser's message when it did not parse.
#[derive(Debug)]
pub enum FrontMatter {
    Yaml(serde_yaml::Value),
    Toml(toml::Value),
    Error(String),
}

/// One row of the metadata table.
#[derive(Debug)]
pub struct ListEntry {
    pub path: String,
    pub size: usize,
    pub mime_type: String,
    pub metadata: Option<FrontMatter>,
    pub title: Option<String>,
    pub time: CommitTime,
}

/// The first MIME type that the extension of a path maps to, if any.
pub uninterp spec fn guessed_mime(path: Seq<char>) -> Option<Seq<char>>;

/// The top-level blocks of a Markdown document (GFM with front matter).
pub uninterp spec fn markdown_blocks(text: Seq<char>) -> Option<Seq<MdBlock>>;

/// The YAML parser's message on a string, or `None` when it parses.
pub uninterp spec fn yaml_error(s: Seq<char>) -> Option<Seq<char>>;

/// The TOML parser's message on a string, or `None` when it parses.
pub uninterp spec fn toml_error(s: Seq<char>) -> Option<Seq<char>>;

/// The most nesting marks that a document handed to the Markdown parser
/// may hold. With at most this many, the tree it builds is at most
/// `2 * MARKDOWN_NESTING_LIMIT + 6` levels deep.
pub const MARKDOWN_NESTING_LIMIT: usize = 1024;

pub open spec fn is_ascii_alnum(c: u8) -> bool {
    (48 <= c <= 57) || (65 <= c <= 90) || (97 <= c <= 122)
}

/// Whether index `i` of `b` is past the end or holds a space, a tab or a
/// line ending.
pub open spec fn blank_at(b: Seq<u8>, i: int) -> bool {
    i >= b.len() || b[i] == 32 || b[i] == 9 || b[i] == 10 || b[i] == 13
}

/// Whether the byte at `i` can open a level of the syntax tree: a block
/// quote (`>`), a list item (`-`, `+` or `*` followed by a blank, or a
/// digit followed by `.` or `)` and a blank), emphasis or strong (`*`, or
/// `_` not preceded by a letter or digit), strikethrough (`~`), or a link,
/// image, reference or footnote definition (`[`).
pub open spec fn nesting_mark(b: Seq<u8>, i: int) -> bool {
    let c = b[i];
    ||| c == 91 || c == 42 || c == 126 || c == 62
    ||| c == 95 && !(i > 0 && is_ascii_alnum(b[i - 1]))
    ||| (c == 45 || c == 43) && blank_at(b, i + 1)
    ||| (c == 46 || c == 41) && i > 0 && 48 <= b[i - 1] <= 57 && blank_at(b, i + 1)
}

/// How many of the first `n` bytes of `b` are nesting marks.
pub open spec fn nesting_marks_upto(b: Seq<u8>, n: int) -> nat
    decreases n,
{
    if n <= 0 {
        0
    } else {
        nesting_marks_upto(b, n - 1) + if nesting_mark(b, n - 1) {
            1nat
        } else {
            0nat
        }
    }
}

pub open spec fn nesting_marks(b: Seq<u8>) -> nat {
    nesting_marks_upto(b, b.len() as int)
}

/// Relies on mime_guess::from_path and MimeGuess::first_raw: the first MIME
/// type known for the path's extension.
#[verifier::external_body]
pub(crate) fn mime_guess_first(path: &str) -> (r: Option<String>)
    ensures
        match r {
            Some(m) => guessed_mime(path@) == Some(m@),
            None => guessed_mime(path@) is None,
        },
{
    mime_guess::from_path(path).first_raw().map(|m| m.to_owned())
}

/// Relies on std::str::from_utf8: succeeds exactly on valid UTF-8 and then
/// holds the decoded characters.
#[verifier::external_body]
fn utf8_text<'a>(bytes: &'a [u8]) -> (r: Option<&'a str>)
    ensures
        r is Some <==> valid_utf8(bytes@),
        r matches Some(s) ==> s@ == decode_utf8(bytes@),
{
    std::str::from_utf8(bytes).ok()
}

/// Relies on markdown::to_mdast with GFM and front matter on, and on the
/// text rendering of its nodes: the root's children, block by block.
/// The tokenizer and the tree builder are loops over explicit stacks
/// (markdown-1.0.0/src/to_mdast.rs:228 `compile`, :1718 `delve_mut`); what
/// recurses is dropping the tree and rendering a heading
/// (src/mdast.rs:300 `children_to_string`), once per level of the tree.
/// Every level below the root but a leaf block, a table row or cell, an
/// autolink and its text is opened by a nesting mark (a list by its first
/// item's marker, which also opens the item), so the tree is at most
/// `2 * marks + 6` levels deep. README.md:330-338 warns that thousands of
/// unclosed links, images, emphasis or strong can crash the parser; the
/// limit keeps every such mark below that.
#[verifier::external_body]
fn parse_markdown(text: &str) -> (r: Option<Vec<MdBlock>>)
    requires
        nesting_marks(encode_utf8(text@)) <= MARKDOWN_NESTING_LIMIT,
    ensures
        match r {
            Some(v) => markdown_blocks(text@) == Some(v@),
            None => markdown_blocks(text@) is None,
        },
{
    let mut opts = markdown::ParseOptions::gfm();
    opts.constructs.frontmatter = true;
    let root = markdown::to_mdast(text, &opts).ok()?;
    Some(root.children().map_or(Vec::new(), |cs| cs.iter().map(|c| match c {
        Node::Yaml(y) => MdBlock::Yaml(y.value.clone()),
        Node::Toml(t) => MdBlock::Toml(t.value.clone()),
        Node::Heading(h) => MdBlock::Heading(h.depth, c.to_string()),
        _ => MdBlock::Other,
    }).collect()))
}

/// Relies on serde_yaml::from_str into a `Value`: the document, or the
/// error's message, which depends on the input alone.
#[verifier::external_body]
fn parse_yaml(s: &str) -> (r: Result<serde_yaml::Value, String>)
    ensures
        r is Ok <==> yaml_error(s@) is None,
        r matches Err(m) ==> yaml_error(s@) == Some(m@),
{
    serde_yaml::from_str::<serde_yaml::Value>(s).map_err(|e| e.to_string())
}

/// Relies on toml::from_str into a `Value`: the document, or the error's
/// message, which depends on the input alone.
#[verifier::external_body]
fn parse_toml(s: &str) -> (r: Result<toml::Value, String>)
    ensures
        r is Ok <==> toml_error(s@) is None,
        r matches Err(m) ==> toml_error(s@) == Some(m@),
{
    toml::from_str::<toml::Value>(s).map_err(|e| e.to_string())
}

/// The MIME type of a path: the first guess from its extension, or
/// `application/octet-stream`.
pub open spec fn mime_of(path: Seq<char>) -> Seq<char> {
    match guessed_mime(path) {
        Some(m) => m,
        None => "application/octet-stream"@,
    }
}

pub fn guess_mime_from_path(path: &str) -> (r: String)
    ensures
        r@ == mime_of(path@),
{
    match mime_guess_first(path) {
        Some(m) => m,
        None => {
            let r = "application/octet-stream".to_string();
            proof {
                reveal_strlit("application/octet-stream");
            }
            r
        },
    }
}

/// The text of the first top-level heading of rank 1.
pub open spec fn first_title(blocks: Seq<MdBlock>) -> Option<Seq<char>>
    decreases blocks.len(),
{
    if blocks.len() == 0 {
        None
    } else {
        match blocks[0] {
            MdBlock::Heading(d, t) if d == 1 => Some(t@),
            _ => first_title(blocks.drop_first()),
        }
    }
}

/// Whether `m` is the front matter of a document with top-level blocks
/// `blocks`: a leading YAML or TOML block parsed by its parser, or that
/// parser's message when it does not parse; nothing without such a block.
pub open spec fn front_matter_of(blocks: Seq<MdBlock>, m: Option<FrontMatter>) -> bool {
    if blocks.len() == 0 {
        m is None
    } else {
        match blocks[0] {
            MdBlock::Yaml(s) => match yaml_error(s@) {
                None => m matches Some(FrontMatter::Yaml(_)),
                Some(e) => m matches Some(FrontMatter::Error(msg)) && msg@ == e,
            },
            MdBlock::Toml(s) => match toml_error(s@) {
                None => m matches Some(FrontMatter::Toml(_)),
                Some(e) => m matches Some(FrontMatter::Error(msg)) && msg@ == e,
            },
            _ => m is None,
        }
    }
}

/// Whether `m` and `t` are the front matter and title of a document's
/// bytes. Bytes that are not UTF-8, text with more nesting marks than the
/// parser is given, and text that does not parse as Markdown give neither.
pub open spec fn extracted(blob: Seq<u8>, m: Option<FrontMatter>, t: Option<String>) -> bool {
    if !valid_utf8(blob) || nesting_marks(blob) > MARKDOWN_NESTING_LIMIT {
        m is None && t is None
    } else {
        match markdown_blocks(decode_utf8(blob)) {
            None => m is None && t is None,
            Some(bs) => front_matter_of(bs, m) && title_view(t) == first_title(bs),
        }
    }
}

pub open spec fn title_view(t: Option<String>) -> Option<Seq<char>> {
    match t {
        Some(s) => Some(s@),
        None => None,
    }
}

/// The front-matter block of a document: its first block, when that is
/// YAML or TOML.
pub fn get_frontmatter_node(blocks: &Vec<MdBlock>) -> (r: Option<&MdBlock>)
    ensures
        blocks@.len() > 0 && (blocks@[0] is Yaml || blocks@[0] is Toml) ==> r == Some(&blocks@[0]),
        !(blocks@.len() > 0 && (blocks@[0] is Yaml || blocks@[0] is Toml)) ==> r is None,
{
    if blocks.len() > 0 {
        match &blocks[0] {
            MdBlock::Yaml(_) | MdBlock::Toml(_) => Some(&blocks[0]),
            _ => None,
        }
    } else {
        None
    }
}

/// The text of the first top-level heading of rank 1.
pub fn get_first_toplevel_rank1_heading(blocks: &Vec<MdBlock>) -> (r: Option<String>)
    ensures
        title_view(r) == first_title(blocks@),
{
    let mut i: usize = 0;
    assert(blocks@.skip(0) =~= blocks@);
    while i < blocks.len()
        invariant
            0 <= i <= blocks@.len(),
            first_title(blocks@) == first_title(blocks@.skip(i as int)),
        decreases blocks@.len() - i,
    {
        assert(blocks@.skip(i as int).drop_first() =~= blocks@.skip(i + 1));
        match &blocks[i] {
            MdBlock::Heading(d, t) => {
                if *d == 1 {
                    return Some(t.clone());
                }
            },
            _ => {},
        }
        i = i + 1;
    }
    None
}

fn blank_byte_at(b: &[u8], i: usize) -> (r: bool)
    ensures
        r == blank_at(b@, i as int),
{
    if i >= b.len() {
        true
    } else {
        let c = b[i];
        c == 32 || c == 9 || c == 10 || c == 13
    }
}

fn nesting_mark_at(b: &[u8], i: usize) -> (r: bool)
    requires
        i < b@.len(),
    ensures
        r == nesting_mark(b@, i as int),
{
    let c = b[i];
    if c == 91 || c == 42 || c == 126 || c == 62 {
        true
    } else if c == 95 {
        if i > 0 {
            let p = b[i - 1];
            !((48 <= p && p <= 57) || (65 <= p && p <= 90) || (97 <= p && p <= 122))
        } else {
            true
        }
    } else if c == 45 || c == 43 {
        i < usize::MAX && blank_byte_at(b, i + 1)
    } else if c == 46 || c == 41 {
        i > 0 && 48 <= b[i - 1] && b[i - 1] <= 57 && i < usize::MAX && blank_byte_at(b, i + 1)
    } else {
        false
    }
}

/// How many nesting marks `blob` holds.
fn count_nesting_marks(blob: &[u8]) -> (r: usize)
    ensures
        r == nesting_marks(blob@),
{
    let mut n: usize = 0;
    let mut i: usize = 0;
    while i < blob.len()
        invariant
            0 <= i <= blob@.len(),
            n == nesting_marks_upto(blob@, i as int),
            n <= i,
        decreases blob@.len() - i,
    {
        if nesting_mark_at(blob, i) {
            n = n + 1;
        }
        i = i + 1;
    }
    n
}

/// Front matter and title of a document's bytes: the leading YAML or TOML
/// block, parsed (or the parser's message when it does not parse), and the
/// first top-level heading of rank 1. Bytes that are not UTF-8, documents
/// with more nesting marks than the Markdown parser is given, and text
/// that does not parse as Markdown give neither.
pub fn extract_metadata(blob: &[u8]) -> (r: (Option<FrontMatter>, Option<String>))
    ensures
        extracted(blob@, r.0, r.1),
{
    let text = match utf8_text(blob) {
        Some(t) => t,
        None => return (None, None),
    };
    if count_nesting_marks(blob) > MARKDOWN_NESTING_LIMIT {
        return (None, None);
    }
    proof {
        decode_utf8_encode_utf8(blob@);
    }
    let blocks = match parse_markdown(text) {
        Some(b) => b,
        None => return (None, None),
    };
    metadata_from_blocks(&blocks)
}

/// Front matter and title of a parsed document: the first block parsed as
/// YAML or TOML when it is front matter of that kind, and the first
/// top-level heading of rank 1.
pub fn metadata_from_blocks(blocks: &Vec<MdBlock>) -> (r: (Option<FrontMatter>, Option<String>))
    ensures
        front_matter_of(blocks@, r.0),
        title_view(r.1) == first_title(blocks@),
{
    let metadata = match get_frontmatter_node(blocks) {
        Some(MdBlock::Yaml(src)) => match parse_yaml(src.as_str()) {
            Ok(doc) => Some(FrontMatter::Yaml(doc)),
            Err(msg) => Some(FrontMatter::Error(msg)),
        },
        Some(MdBlock::Toml(src)) => match parse_toml(src.as_str()) {
            Ok(doc) => Some(FrontMatter::Toml(doc)),
            Err(msg) => Some(FrontMatter::Error(msg)),
        },
        _ => None,
    };
    let title = get_first_toplevel_rank1_heading(blocks);
    (metadata, title)
}

/// The row of a path whose last touch was at `time`, with the content of the
/// blob it holds there.
pub fn build_entry(path: &String, time: CommitTime, content: &[u8]) -> (r: ListEntry)
    ensures
        r.path@ == path@,
        r.size == content@.len(),
        r.mime_type@ == mime_of(path@),
        r.time == time,
        extracted(content@, r.metadata, r.title),
{
    let mime_type = guess_mime_from_path(path.as_str());
    let (metadata, title) = extract_metadata(content);
    ListEntry { path: path.clone(), size: content.len(), mime_type, metadata, title, time }
}

} // verus!
