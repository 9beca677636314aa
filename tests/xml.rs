use ip_xact_rs::parse::parse_document;
use ip_xact_rs::table::Table;
use ip_xact_rs::xml::{
    child_text_of, find_child_by_tag_name, find_children_by_tag_name, find_descendant_by_tag_name,
    find_descendants_by_tag_name, get_name, Element, XmlDocument,
};

fn el(tag: &str, text: Option<&str>, level: usize) -> Element {
    Element { tag: tag.to_string(), text: text.map(|t| t.to_string()), level }
}

// <a><name>top</name><b><name>inner</name><c/></b><c>x</c></a><z/>
fn sample() -> XmlDocument {
    XmlDocument {
        elements: vec![
            el("a", None, 1),
            el("name", Some("top"), 2),
            el("b", None, 2),
            el("name", Some("inner"), 3),
            el("c", None, 3),
            el("c", Some("x"), 2),
            el("z", None, 1),
        ],
    }
}

#[test]
fn children_by_tag() {
    let d = sample();
    assert_eq!(find_children_by_tag_name(&d, 0, "c"), vec![5]);
    assert_eq!(find_children_by_tag_name(&d, 0, "name"), vec![1]);
    assert_eq!(find_children_by_tag_name(&d, 2, "c"), vec![4]);
    assert_eq!(find_children_by_tag_name(&d, 0, "z"), Vec::<usize>::new());
}

#[test]
fn descendants_by_tag() {
    let d = sample();
    assert_eq!(find_descendants_by_tag_name(&d, 0, "c"), vec![4, 5]);
    assert_eq!(find_descendants_by_tag_name(&d, 0, "name"), vec![1, 3]);
    assert_eq!(find_descendants_by_tag_name(&d, 0, "a"), vec![0]);
    assert_eq!(find_descendants_by_tag_name(&d, 2, "c"), vec![4]);
}

#[test]
fn first_child_and_descendant() {
    let d = sample();
    assert_eq!(find_child_by_tag_name(&d, 0, "c"), Some(5));
    assert_eq!(find_child_by_tag_name(&d, 0, "q"), None);
    assert_eq!(find_descendant_by_tag_name(&d, 0, "c"), Some(4));
    assert_eq!(find_descendant_by_tag_name(&d, 4, "c"), Some(4));
    assert_eq!(find_descendant_by_tag_name(&d, 6, "c"), None);
}

#[test]
fn names_and_texts() {
    let d = sample();
    assert_eq!(get_name(&d, 0), Some("top".to_string()));
    assert_eq!(get_name(&d, 2), Some("inner".to_string()));
    assert_eq!(get_name(&d, 4), None);
    assert_eq!(child_text_of(&d, 0, "c"), Some("x".to_string()));
    assert_eq!(child_text_of(&d, 2, "c"), None);
}

#[test]
fn parsed_document_levels_and_texts() {
    let d = parse_document("<!-- c --><a><name>top</name><b>t<i/></b>tail<?pi x?></a>").unwrap();
    let tags: Vec<&str> = d.elements.iter().map(|e| e.tag.as_str()).collect();
    assert_eq!(tags, vec!["a", "name", "b", "i"]);
    assert_eq!(d.elements[1].text, Some("top".to_string()));
    assert_eq!(d.elements[2].text, Some("t".to_string()));
    assert_eq!(d.elements[0].text, None);
    assert_eq!(d.elements[1].level, d.elements[0].level + 1);
    assert_eq!(d.elements[3].level, d.elements[2].level + 1);
    assert_eq!(get_name(&d, 0), Some("top".to_string()));
}

#[test]
fn malformed_xml_is_rejected() {
    let r = parse_document("<a><b></a>");
    assert!(r.is_err());
    assert!(!r.err().unwrap().message.is_empty());
}

#[test]
fn table_insert_get_remove() {
    let mut t: Table<u64> = Table::new();
    t.insert("a".to_string(), 1);
    t.insert("b".to_string(), 2);
    t.insert("a".to_string(), 3);
    assert_eq!(t.len(), 2);
    assert_eq!(t.get(&"a".to_string()), Some(&3));
    assert_eq!(t.entries()[0].0, "a");
    t.remove(&"a".to_string());
    assert_eq!(t.get(&"a".to_string()), None);
    assert_eq!(t.len(), 1);
    t.remove(&"zz".to_string());
    assert_eq!(t.len(), 1);
}
