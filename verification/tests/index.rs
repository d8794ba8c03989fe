use seroost::index::model::Timestamp;
use seroost::index::term_processor::Raw;
use seroost::index::{
    entry_action, extract_text_from_xml, file_kind, select_character_data, XmlItem, index_directory, join_text_chunks, EntryAction, FileKind,
    FileKindError, SourceDoc,
};

fn src(path: &str, secs: u64, content: &str) -> SourceDoc {
    SourceDoc {
        path: path.to_string(),
        last_modified: Timestamp { secs, nanos: 0 },
        content: content.to_string(),
    }
}

#[test]
fn directory_index_keeps_last_document_per_path() {
    let docs = vec![src("a", 1, "x y"), src("b", 1, "y"), src("a", 2, "z")];
    let m = index_directory(&docs, &Raw);
    assert_eq!(m.doc_count(), 2);
    assert_eq!(m.total_term_count(), 2);
    assert!(!m.is_stale("a", Timestamp { secs: 2, nanos: 0 }));
    assert_eq!(m.doc_freq().get("x"), None);
    assert_eq!(m.doc_freq().get("y"), Some(&1));
    assert_eq!(m.doc_freq().get("z"), Some(&1));
}

#[test]
fn empty_directory_gives_empty_model() {
    let m = index_directory(&Vec::new(), &Raw);
    assert_eq!(m.doc_count(), 0);
    assert_eq!(m.total_term_count(), 0);
}

#[test]
fn walk_decisions() {
    assert_eq!(entry_action(Some(".git"), false, true, true), EntryAction::SkipHidden);
    assert_eq!(entry_action(Some(".x.txt"), true, false, true), EntryAction::SkipHidden);
    assert_eq!(entry_action(Some("link"), true, true, true), EntryAction::SkipSymlink);
    assert_eq!(entry_action(Some("sub"), false, true, true), EntryAction::Descend);
    assert_eq!(entry_action(Some("sub"), false, true, false), EntryAction::SkipDirectory);
    assert_eq!(entry_action(Some("a.txt"), false, false, false), EntryAction::IndexFile);
    assert_eq!(entry_action(None, false, false, true), EntryAction::IndexFile);
    assert_eq!(entry_action(Some(""), false, false, true), EntryAction::IndexFile);
}

#[test]
fn file_kinds_by_extension() {
    assert_eq!(file_kind(Some("txt")), Ok(FileKind::Text));
    assert_eq!(file_kind(Some("TXT")), Ok(FileKind::Text));
    assert_eq!(file_kind(Some("Pdf")), Ok(FileKind::Pdf));
    assert_eq!(file_kind(Some("xhtml")), Ok(FileKind::Markup));
    assert_eq!(file_kind(Some("HTML")), Ok(FileKind::Markup));
    assert_eq!(file_kind(Some("xml")), Ok(FileKind::Markup));
    assert_eq!(file_kind(Some("DocX")), Err(FileKindError::Unsupported("docx".to_string())));
    assert_eq!(file_kind(None), Err(FileKindError::NoExtension));
}

#[test]
fn markup_text_pieces_are_joined_with_spaces() {
    let chunks = vec!["Hello".to_string(), "world".to_string()];
    assert_eq!(join_text_chunks(&chunks), "Hello world ");
    assert_eq!(join_text_chunks(&Vec::new()), "");
}

#[test]
fn xml_text_is_its_character_data_joined() {
    assert_eq!(
        extract_text_from_xml(b"<a>Hello<b>world</b></a>"),
        Ok("Hello world ".to_string())
    );
    assert_eq!(extract_text_from_xml(b"<?xml version=\"1.0\"?><doc/>"), Ok(String::new()));
    assert!(extract_text_from_xml(b"<a>unclosed").is_err());
    assert!(extract_text_from_xml(b"<a></b>").is_err());
}

#[test]
fn only_characters_events_count_as_text() {
    assert_eq!(
        extract_text_from_xml(b"<a> <b>x</b><![CDATA[c]]><!--n--></a>"),
        Ok("x ".to_string())
    );
    let items = vec![
        XmlItem::StartDocument,
        XmlItem::StartElement,
        XmlItem::Whitespace(" ".to_string()),
        XmlItem::Characters("one".to_string()),
        XmlItem::CData("c".to_string()),
        XmlItem::Comment("n".to_string()),
        XmlItem::Characters("two".to_string()),
        XmlItem::EndElement,
        XmlItem::EndDocument,
    ];
    assert_eq!(select_character_data(&items), vec!["one".to_string(), "two".to_string()]);
}
