//! Indexing: turning documents into a term-frequency model.
pub mod lexer;
pub mod model;
pub mod str_map;
pub mod term_processor;

use vstd::prelude::*;
use vstd::string::StrSliceExecFns;
use crate::index::lexer::lex;
use crate::index::model::{counts_terms, processed_terms, Model, Timestamp};
use crate::index::term_processor::TermProcessor;
use crate::text::{to_lowercase, unicode_lowercase};
use xml::reader::XmlEvent;

verus! {

/// A document that was read from disk: where it is, when it was last
/// modified, and its text.
pub struct SourceDoc {
    pub path: String,
    pub last_modified: Timestamp,
    pub content: String,
}

/// The last document of `docs` that stands at `path`, if any.
pub open spec fn last_source(docs: Seq<SourceDoc>, path: Seq<char>) -> Option<SourceDoc>
    decreases docs.len(),
{
    if docs.len() == 0 {
        None
    } else if docs.last().path@ == path {
        Some(docs.last())
    } else {
        last_source(docs.drop_last(), path)
    }
}

/// Total number of characters of the texts of `docs`.
pub open spec fn text_len(docs: Seq<SourceDoc>) -> int
    decreases docs.len(),
{
    if docs.len() == 0 {
        0
    } else {
        text_len(docs.drop_last()) + docs.last().content@.len()
    }
}

proof fn lemma_text_len_take(docs: Seq<SourceDoc>, i: int)
    requires
        0 <= i < docs.len(),
    ensures
        text_len(docs.take(i + 1)) == text_len(docs.take(i)) + docs[i].content@.len(),
        text_len(docs.take(i + 1)) <= text_len(docs),
    decreases docs.len() - i,
{
    assert(docs.take(i + 1).drop_last() =~= docs.take(i));
    if i + 1 < docs.len() {
        lemma_text_len_take(docs, i + 1);
    } else {
        assert(docs.take(i + 1) =~= docs);
    }
}

/// Indexes the documents in order into a new model, as indexing a
/// directory does with the documents it reads: each path ends up with the
/// last document read at it.
pub fn index_directory<P: TermProcessor>(docs: &Vec<SourceDoc>, term_processor: &P) -> (m: Model)
    requires
        text_len(docs@) <= usize::MAX,
    ensures
        m.wf(),
        forall|path: Seq<char>| #[trigger]
            m.documents().contains_key(path) <==> last_source(docs@, path) is Some,
        forall|path: Seq<char>| #[trigger]
            m.documents().contains_key(path) ==> {
                let src = last_source(docs@, path)->Some_0;
                let d = m.documents()[path];
                &&& d.term_count == lex(src.content@).len()
                &&& d.last_modified == src.last_modified
                &&& counts_terms(d.term_freq, processed_terms(term_processor, src.content@))
            },
{
    let mut m = Model::new();
    let mut i: usize = 0;
    while i < docs.len()
        invariant
            i <= docs.len(),
            text_len(docs@) <= usize::MAX,
            m.wf(),
            m.spec_doc_count() <= i,
            m.spec_total_term_count() <= text_len(docs@.take(i as int)),
            forall|path: Seq<char>| #[trigger]
                m.documents().contains_key(path) <==> last_source(docs@.take(i as int), path) is Some,
            forall|path: Seq<char>| #[trigger]
                m.documents().contains_key(path) ==> {
                    let src = last_source(docs@.take(i as int), path)->Some_0;
                    let d = m.documents()[path];
                    &&& d.term_count == lex(src.content@).len()
                    &&& d.last_modified == src.last_modified
                    &&& counts_terms(d.term_freq, processed_terms(term_processor, src.content@))
                },
        decreases docs.len() - i,
    {
        let doc = &docs[i];
        proof {
            lemma_text_len_take(docs@, i as int);
            crate::index::lexer::lemma_lex_len(doc.content@);
            if m.documents().contains_key(doc.path@) {
                assert(m.term_count_of(doc.path@) >= 0);
            }
        }
        let ghost before = m;
        m.index_doc(doc.path.as_str(), doc.last_modified, doc.content.as_str(), term_processor);
        proof {
            let next = docs@.take(i + 1);
            assert(next.drop_last() =~= docs@.take(i as int));
            assert(next.last() == *doc);
            assert forall|path: Seq<char>| #[trigger]
                m.documents().contains_key(path) <==> last_source(next, path) is Some by {
                if path != doc.path@ {
                    assert(m.documents().remove(doc.path@).contains_key(path)
                        == before.documents().remove(doc.path@).contains_key(path));
                }
            }
            assert forall|path: Seq<char>| #[trigger] m.documents().contains_key(path) implies {
                let src = last_source(next, path)->Some_0;
                let d = m.documents()[path];
                &&& d.term_count == lex(src.content@).len()
                &&& d.last_modified == src.last_modified
                &&& counts_terms(d.term_freq, processed_terms(term_processor, src.content@))
            } by {
                if path != doc.path@ {
                    assert(m.documents().remove(doc.path@).contains_key(path));
                    assert(before.documents().contains_key(path));
                    assert(m.documents().remove(doc.path@)[path] == before.documents().remove(
                        doc.path@,
                    )[path]);
                    assert(last_source(next, path) == last_source(docs@.take(i as int), path));
                } else {
                    assert(last_source(next, path) == Some(*doc));
                }
            }
        }
        i = i + 1;
    }
    proof {
        assert(docs@.take(docs.len() as int) =~= docs@);
    }
    m
}

/// What the directory walk does with an entry.
#[derive(Clone, Copy, Debug, PartialEq, Eq)]
pub enum EntryAction {
    /// A name that starts with a dot.
    SkipHidden,
    /// A symbolic link, skipped so that no walk loops.
    SkipSymlink,
    /// A directory, walked when the walk is recursive.
    Descend,
    /// A directory of a walk that is not recursive.
    SkipDirectory,
    /// A file, read and indexed.
    IndexFile,
}

pub open spec fn spec_entry_action(
    file_name: Option<Seq<char>>,
    is_symlink: bool,
    is_dir: bool,
    recursive: bool,
) -> EntryAction {
    if file_name matches Some(n) && n.len() > 0 && n[0] == '.' {
        EntryAction::SkipHidden
    } else if is_symlink {
        EntryAction::SkipSymlink
    } else if is_dir {
        if recursive {
            EntryAction::Descend
        } else {
            EntryAction::SkipDirectory
        }
    } else {
        EntryAction::IndexFile
    }
}

/// Decides what the walk does with a directory entry: hidden names and
/// symbolic links are skipped, directories are walked when the walk is
/// recursive, and other entries are indexed.
pub fn entry_action(file_name: Option<&str>, is_symlink: bool, is_dir: bool, recursive: bool) -> (r:
    EntryAction)
    ensures
        r == spec_entry_action(
            match file_name {
                Some(n) => Some(n@),
                None => None,
            },
            is_symlink,
            is_dir,
            recursive,
        ),
{
    let hidden = match file_name {
        Some(n) => !n.is_empty() && n.get_char(0) == '.',
        None => false,
    };
    if hidden {
        EntryAction::SkipHidden
    } else if is_symlink {
        EntryAction::SkipSymlink
    } else if is_dir {
        if recursive {
            EntryAction::Descend
        } else {
            EntryAction::SkipDirectory
        }
    } else {
        EntryAction::IndexFile
    }
}

/// The kinds of file that can be read for indexing.
#[derive(Clone, Copy, Debug, PartialEq, Eq)]
pub enum FileKind {
    Text,
    Pdf,
    Markup,
}

/// Why a file's kind could not be told.
#[derive(Debug, PartialEq, Eq)]
pub enum FileKindError {
    /// The extension, lowercased, is not one that can be read.
    Unsupported(String),
    NoExtension,
}

pub open spec fn spec_file_kind(ext: Seq<char>) -> Option<FileKind> {
    if ext == "txt"@ {
        Some(FileKind::Text)
    } else if ext == "pdf"@ {
        Some(FileKind::Pdf)
    } else if ext == "xhtml"@ || ext == "html"@ || ext == "xml"@ {
        Some(FileKind::Markup)
    } else {
        None
    }
}

/// Tells the kind of a file by its extension, compared without regard to
/// case: `txt` is text, `pdf` is PDF, and `xhtml`, `html` and `xml` are
/// markup.
pub fn file_kind(extension: Option<&str>) -> (r: Result<FileKind, FileKindError>)
    ensures
        extension is None ==> r == Err::<FileKind, FileKindError>(FileKindError::NoExtension),
        extension matches Some(e) ==> {
            let lower = unicode_lowercase(e@);
            match spec_file_kind(lower) {
                Some(k) => r == Ok::<FileKind, FileKindError>(k),
                None => r matches Err(FileKindError::Unsupported(s)) && s@ == lower,
            }
        },
{
    match extension {
        None => Err(FileKindError::NoExtension),
        Some(e) => {
            let lower = to_lowercase(e);
            if lower == String::from_str("txt") {
                Ok(FileKind::Text)
            } else if lower == String::from_str("pdf") {
                Ok(FileKind::Pdf)
            } else if lower == String::from_str("xhtml") || lower == String::from_str("html")
                || lower == String::from_str("xml") {
                Ok(FileKind::Markup)
            } else {
                Err(FileKindError::Unsupported(lower))
            }
        },
    }
}

/// The text of a markup document: its character data, each piece
/// followed by a space.
pub open spec fn joined_text(chunks: Seq<Seq<char>>) -> Seq<char>
    decreases chunks.len(),
{
    if chunks.len() == 0 {
        seq![]
    } else {
        joined_text(chunks.drop_last()) + chunks.last() + seq![' ']
    }
}

/// The characters of each string, in order.
pub open spec fn string_views(v: Seq<String>) -> Seq<Seq<char>> {
    v.map_values(|c: String| c@)
}

/// Joins pieces of character data into one text, each piece followed by
/// a space.
pub fn join_text_chunks(chunks: &Vec<String>) -> (r: String)
    ensures
        r@ == joined_text(string_views(chunks@)),
{
    let mut out = String::new();
    let mut i: usize = 0;
    while i < chunks.len()
        invariant
            i <= chunks.len(),
            out@ == joined_text(string_views(chunks@).take(i as int)),
        decreases chunks.len() - i,
    {
        let ghost views = string_views(chunks@);
        proof {
            assert(views.take(i + 1).drop_last() =~= views.take(i as int));
            reveal_strlit(" ");
        }
        out.append(chunks[i].as_str());
        out.append(" ");
        i = i + 1;
    }
    proof {
        assert(string_views(chunks@).take(chunks.len() as int) =~= string_views(chunks@));
    }
    out
}

/// The kinds of event that an XML reader reports.
#[derive(Clone, Copy, Debug, PartialEq, Eq)]
pub enum XmlKind {
    StartDocument,
    EndDocument,
    ProcessingInstruction,
    StartElement,
    EndElement,
    CData,
    Comment,
    Characters,
    Whitespace,
}

/// An event of an XML reader, with the text of the events that carry text.
pub enum XmlItem {
    StartDocument,
    EndDocument,
    ProcessingInstruction,
    StartElement,
    EndElement,
    CData(String),
    Comment(String),
    Characters(String),
    Whitespace(String),
}

/// The kind of an event and its text (empty for events without text).
pub open spec fn item_view(i: XmlItem) -> (XmlKind, Seq<char>) {
    match i {
        XmlItem::StartDocument => (XmlKind::StartDocument, seq![]),
        XmlItem::EndDocument => (XmlKind::EndDocument, seq![]),
        XmlItem::ProcessingInstruction => (XmlKind::ProcessingInstruction, seq![]),
        XmlItem::StartElement => (XmlKind::StartElement, seq![]),
        XmlItem::EndElement => (XmlKind::EndElement, seq![]),
        XmlItem::CData(t) => (XmlKind::CData, t@),
        XmlItem::Comment(t) => (XmlKind::Comment, t@),
        XmlItem::Characters(t) => (XmlKind::Characters, t@),
        XmlItem::Whitespace(t) => (XmlKind::Whitespace, t@),
    }
}

/// The views of a list of events, in order.
pub open spec fn item_views(v: Seq<XmlItem>) -> Seq<(XmlKind, Seq<char>)> {
    v.map_values(|i: XmlItem| item_view(i))
}

/// The events, each with its kind and text, that xml-rs's `EventReader`
/// reports for a document, up to and with the end of the document; `None`
/// when the reader reports an error first.
pub uninterp spec fn xml_events(bytes: Seq<u8>) -> Option<Seq<(XmlKind, Seq<char>)>>;

/// Runs xml-rs's `EventReader` over the bytes and hands back its events,
/// each turned into the event of the same kind, or the reader's first
/// error as a message. The events are named, not described; the message
/// is not stated.
#[verifier::external_body]
fn xml_reader_events(bytes: &[u8]) -> (r: Result<Vec<XmlItem>, String>)
    ensures
        r matches Ok(v) ==> xml_events(bytes@) == Some(item_views(v@)),
        r is Err ==> xml_events(bytes@) is None,
{
    let mut items = Vec::new();
    for event in xml::EventReader::new(bytes) {
        items.push(match event.map_err(|e| e.to_string())? {
            XmlEvent::StartDocument { .. } => XmlItem::StartDocument,
            XmlEvent::EndDocument => XmlItem::EndDocument,
            XmlEvent::ProcessingInstruction { .. } => XmlItem::ProcessingInstruction,
            XmlEvent::StartElement { .. } => XmlItem::StartElement,
            XmlEvent::EndElement { .. } => XmlItem::EndElement,
            XmlEvent::CData(t) => XmlItem::CData(t),
            XmlEvent::Comment(t) => XmlItem::Comment(t),
            XmlEvent::Characters(t) => XmlItem::Characters(t),
            XmlEvent::Whitespace(t) => XmlItem::Whitespace(t),
        });
    }
    Ok(items)
}

/// The texts of the `Characters` events among `es`, in order.
pub open spec fn character_data(es: Seq<(XmlKind, Seq<char>)>) -> Seq<Seq<char>>
    decreases es.len(),
{
    if es.len() == 0 {
        seq![]
    } else if es.last().0 == XmlKind::Characters {
        character_data(es.drop_last()).push(es.last().1)
    } else {
        character_data(es.drop_last())
    }
}

/// The texts of the `Characters` events, in order; whitespace-only text,
/// CDATA and comments are left out.
pub fn select_character_data(items: &Vec<XmlItem>) -> (r: Vec<String>)
    ensures
        string_views(r@) == character_data(item_views(items@)),
{
    let mut out: Vec<String> = Vec::new();
    let mut i: usize = 0;
    while i < items.len()
        invariant
            i <= items.len(),
            string_views(out@) == character_data(item_views(items@).take(i as int)),
        decreases items.len() - i,
    {
        let ghost views = item_views(items@);
        proof {
            assert(views.take(i + 1).drop_last() =~= views.take(i as int));
            assert(views.take(i + 1).last() == item_view(items@[i as int]));
        }
        let ghost before = out@;
        match &items[i] {
            XmlItem::Characters(t) => {
                out.push(t.clone());
                assert(string_views(out@) =~= string_views(before).push(t@));
            },
            _ => {},
        }
        i = i + 1;
    }
    proof {
        assert(item_views(items@).take(items.len() as int) =~= item_views(items@));
    }
    out
}

/// The text of an XML document: the text of its `Characters` events, each
/// followed by a space; an error when the document cannot be read as XML.
pub fn extract_text_from_xml(bytes: &[u8]) -> (r: Result<String, String>)
    ensures
        match xml_events(bytes@) {
            Some(es) => r matches Ok(t) && t@ == joined_text(character_data(es)),
            None => r is Err,
        },
{
    match xml_reader_events(bytes) {
        Ok(items) => {
            let texts = select_character_data(&items);
            Ok(join_text_chunks(&texts))
        },
        Err(e) => Err(e),
    }
}

/// Number of `Characters` events among `es`.
pub open spec fn characters_events(es: Seq<(XmlKind, Seq<char>)>) -> nat
    decreases es.len(),
{
    if es.len() == 0 {
        0
    } else {
        characters_events(es.drop_last()) + if es.last().0 == XmlKind::Characters {
            1nat
        } else {
            0nat
        }
    }
}

/// Every `Characters` event gives one piece of text, its own, and no other
/// event gives any: the text of a single event is its text or nothing, the
/// text of two lists of events one after the other is the text of the
/// first followed by that of the second, and there are as many pieces as
/// `Characters` events.
pub proof fn law_character_data(
    x: Seq<(XmlKind, Seq<char>)>,
    y: Seq<(XmlKind, Seq<char>)>,
    k: XmlKind,
    t: Seq<char>,
)
    ensures
        character_data(x + y) == character_data(x) + character_data(y),
        character_data(seq![(k, t)]) == if k == XmlKind::Characters {
            seq![t]
        } else {
            Seq::<Seq<char>>::empty()
        },
        character_data(x).len() == characters_events(x),
    decreases y.len(),
{
    let one = seq![(k, t)];
    assert(one.drop_last() =~= Seq::<(XmlKind, Seq<char>)>::empty());
    assert(one.last() == (k, t));
    assert(character_data(Seq::<(XmlKind, Seq<char>)>::empty()) =~= Seq::<Seq<char>>::empty());
    assert(character_data(one.drop_last()) =~= Seq::<Seq<char>>::empty());
    if k == XmlKind::Characters {
        assert(character_data(one) =~= seq![t]);
    }
    if y.len() == 0 {
        assert(x + y =~= x);
        assert(character_data(x) + character_data(y) =~= character_data(x));
    } else {
        assert((x + y).drop_last() =~= x + y.drop_last());
        assert((x + y).last() == y.last());
        law_character_data(x, y.drop_last(), k, t);
        if y.last().0 == XmlKind::Characters {
            assert(character_data(x) + character_data(y.drop_last()).push(y.last().1) =~= (
            character_data(x) + character_data(y.drop_last())).push(y.last().1));
        }
    }
    lemma_character_data_len(x);
}

proof fn lemma_character_data_len(x: Seq<(XmlKind, Seq<char>)>)
    ensures
        character_data(x).len() == characters_events(x),
    decreases x.len(),
{
    if x.len() > 0 {
        lemma_character_data_len(x.drop_last());
    }
}

/// Every symbolic link that is not hidden is skipped, whatever it points
/// to and whether or not the walk is recursive; hidden entries are always
/// skipped; other directories are walked exactly when the walk is
/// recursive; other files are indexed.
pub proof fn law_entry_actions(
    file_name: Option<Seq<char>>,
    is_symlink: bool,
    is_dir: bool,
    recursive: bool,
)
    ensures
        ({
            let hidden = file_name matches Some(n) && n.len() > 0 && n[0] == '.';
            let a = spec_entry_action(file_name, is_symlink, is_dir, recursive);
            &&& hidden ==> a == EntryAction::SkipHidden
            &&& !hidden && is_symlink ==> a == EntryAction::SkipSymlink
            &&& !hidden && !is_symlink && is_dir ==> (a == EntryAction::Descend <==> recursive)
            &&& !hidden && !is_symlink && is_dir && !recursive ==> a == EntryAction::SkipDirectory
            &&& !hidden && !is_symlink && !is_dir ==> a == EntryAction::IndexFile
        }),
{
}

} // verus!
