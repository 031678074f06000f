//! Tests of the stated properties: parent/child duality, detach idempotence,
//! round trips, namespace resolution and shadowing, encoding enforcement,
//! and the attach precondition.

use xml_doc::{Document, Element, Error, Node, ReadOptions};

fn count_in_children(doc: &Document, p: Element, e: Element) -> usize {
    p.children(doc)
        .iter()
        .filter(|n| n.as_element() == Some(e))
        .count()
}

#[test]
fn parent_child_duality() {
    let xml = r#"<?xml version="1.0"?><a><b><c/></b><d/></a>"#;
    let mut doc = Document::parse_str(xml).unwrap();
    let a = doc.root_element().unwrap();
    let b = a.child_elements(&doc)[0];
    let c = b.child_elements(&doc)[0];
    let d = a.child_elements(&doc)[1];
    // parent recorded => exactly one occurrence in that parent's children
    assert_eq!(b.parent(&doc), Some(a));
    assert_eq!(count_in_children(&doc, a, b), 1);
    assert_eq!(count_in_children(&doc, a, c), 0);
    assert_eq!(c.parent(&doc), Some(b));
    assert_eq!(count_in_children(&doc, b, c), 1);
    // detaching removes the occurrence and clears the parent
    d.detatch(&mut doc).unwrap();
    assert_eq!(d.parent(&doc), None);
    assert_eq!(count_in_children(&doc, a, d), 0);
}

#[test]
fn detach_idempotent() {
    let xml = r#"<?xml version="1.0"?><a><b/><c/></a>"#;
    let mut doc = Document::parse_str(xml).unwrap();
    let a = doc.root_element().unwrap();
    let b = a.child_elements(&doc)[0];
    b.detatch(&mut doc).unwrap();
    let once = doc.write_str().unwrap();
    // detaching again reports no error and changes nothing
    b.detatch(&mut doc).unwrap();
    let twice = doc.write_str().unwrap();
    assert_eq!(once, twice);
    assert_eq!(b.parent(&doc), None);
}

#[test]
fn round_trip_structural() {
    let xml = "<?xml version=\"1.0\" encoding=\"UTF-8\"?>\n<root a=\"1\" b=\"2\">\n  <child/>\n  text\n</root>";
    let doc = Document::parse_str(xml).unwrap();
    let written = doc.write_str().unwrap();
    // writing is a fixpoint: parsing what was written and writing again
    // reproduces the same text
    let doc2 = Document::parse_str(&written).unwrap();
    let written2 = doc2.write_str().unwrap();
    assert_eq!(written, written2);
    // and the reparsed tree is structurally the same
    let r1 = doc.root_element().unwrap();
    let r2 = doc2.root_element().unwrap();
    assert_eq!(r1.name(&doc), r2.name(&doc2));
    assert_eq!(r1.children(&doc).len(), r2.children(&doc2).len());
    assert_eq!(r1.attribute(&doc, "a"), r2.attribute(&doc2, "a"));
    assert_eq!(r1.attribute(&doc, "b"), r2.attribute(&doc2, "b"));
}

#[test]
fn round_trip_attribute_order_sorted() {
    // attributes come back in sorted order regardless of source order
    let xml = "<?xml version=\"1.0\"?><r b=\"2\" a=\"1\"/>";
    let doc = Document::parse_str(xml).unwrap();
    let written = doc.write_str().unwrap();
    let a_pos = written.find("a=\"1\"").unwrap();
    let b_pos = written.find("b=\"2\"").unwrap();
    assert!(a_pos < b_pos);
    // namespace declarations are written after attributes, sorted by prefix
    let xml = "<?xml version=\"1.0\"?><r xmlns:z=\"zz\" xmlns:a=\"aa\" k=\"v\"/>";
    let doc = Document::parse_str(xml).unwrap();
    let written = doc.write_str().unwrap();
    let k = written.find("k=\"v\"").unwrap();
    let a = written.find("xmlns:a=\"aa\"").unwrap();
    let z = written.find("xmlns:z=\"zz\"").unwrap();
    assert!(k < a && a < z);
}

#[test]
fn empty_text_node_round_trip() {
    // <tag></tag> keeps an empty text child; <tag/> stays childless
    let doc = Document::parse_str("<?xml version=\"1.0\"?><a><b></b><c/></a>").unwrap();
    let a = doc.root_element().unwrap();
    let b = a.child_elements(&doc)[0];
    let c = a.child_elements(&doc)[1];
    assert_eq!(b.children(&doc).len(), 1);
    assert_eq!(b.children(&doc)[0], Node::Text(String::new()));
    assert_eq!(c.children(&doc).len(), 0);
    // with the option off, both are childless
    let mut opts = ReadOptions::default();
    opts.empty_text_node = false;
    let doc = Document::parse_str_with_opts("<?xml version=\"1.0\"?><a><b></b><c/></a>", opts)
        .unwrap();
    let a = doc.root_element().unwrap();
    let b = a.child_elements(&doc)[0];
    assert_eq!(b.children(&doc).len(), 0);
}

#[test]
fn namespace_resolution_examples() {
    let xml = r#"<?xml version="1.0" encoding="UTF-8"?>
    <parent xmlns="http://ns1" xmlns:ns1="http://ns1" xmlns:ns2="http://ns2">
        <child xmlns:ns="http://ns2" />
    </parent>
    "#;
    let mut doc = Document::parse_str(xml).unwrap();
    let root = doc.root_element().unwrap();
    let child = root.child_elements(&doc)[0];
    assert_eq!(root.closest_prefix(&doc, "http://ns1"), Some(""));
    assert_eq!(root.closest_prefix(&doc, "http://ns2"), Some("ns2"));
    assert_eq!(child.closest_prefix(&doc, "http://ns1"), Some(""));
    assert_eq!(child.closest_prefix(&doc, "http://ns2"), Some("ns"));

    // quantification rewrites the prefix to the closest one
    assert!(child.is_quantified(&doc, "http://ns1"));
    assert!(!root.is_quantified(&doc, "http://ns2"));
    assert_eq!(
        child.quantify_with_closest(&mut doc, "http://ns1"),
        Some("".to_string())
    );
    assert_eq!(
        root.quantify_with_closest(&mut doc, "http://ns2"),
        Some("ns2".to_string())
    );
    assert!(child.is_quantified(&doc, "http://ns1"));
    assert!(root.is_quantified(&doc, "http://ns2"));
    // an unknown namespace cannot be quantified and changes nothing
    let name_before = child.full_name(&doc).to_string();
    assert_eq!(child.quantify_with_closest(&mut doc, "http://nowhere"), None);
    assert_eq!(child.full_name(&doc), name_before);
}

#[test]
fn shadowing_excludes_redeclared_prefix() {
    let xml = r#"<?xml version="1.0" encoding="UTF-8"?>
    <root xmlns:ns2="http://ns1">
        <child xmlns:ns2="http://ns2" />
    </root>
    "#;
    let doc = Document::parse_str(xml).unwrap();
    let root = doc.root_element().unwrap();
    let child = root.child_elements(&doc)[0];
    let at_root = root.collect_namespace_prefixes(&doc, "http://ns1");
    assert!(at_root.contains("ns2"));
    // the child re-declares ns2 for a different URL, so ns2 is no longer
    // valid for http://ns1 there
    let at_child = child.collect_namespace_prefixes(&doc, "http://ns1");
    assert!(!at_child.contains("ns2"));
}

#[test]
fn prefix_collection_counts() {
    let xml = r#"<?xml version="1.0" encoding="UTF-8"?>
    <parent xmlns="http://ns1" xmlns:ns1="http://ns1" xmlns:ns2="http://ns1">
        <child xmlns:ns2="http://ns2" />
    </parent>
    "#;
    let doc = Document::parse_str(xml).unwrap();
    let root = doc.root_element().unwrap();
    let child = root.child_elements(&doc)[0];
    // three prefixes at the root: the default, ns1 and ns2
    assert_eq!(root.collect_namespace_prefixes(&doc, "http://ns1").len(), 3);
    // only two at the child: ns2 is overridden
    assert_eq!(child.collect_namespace_prefixes(&doc, "http://ns1").len(), 2);
}

#[test]
fn applicable_and_external_decls() {
    let xml = r#"<?xml version="1.0" encoding="UTF-8"?>
    <parent xmlns="http://ns1" xmlns:ns1="http://ns1" xmlns:ns2="http://ns1">
        <child xmlns:ns2="http://ns2">
            <ns1:child/>
            <ns2:child/>
        </child>
    </parent>
    "#;
    let doc = Document::parse_str(xml).unwrap();
    let root = doc.root_element().unwrap();
    let child = root.child_elements(&doc)[0];
    let applicable = child.collect_applicable_namespace_decls(&doc);
    assert_eq!(applicable.len(), 3);
    assert_eq!(applicable.get(""), Some("http://ns1"));
    assert_eq!(applicable.get("ns1"), Some("http://ns1"));
    assert_eq!(applicable.get("ns2"), Some("http://ns2"));
    // the subtree uses "", ns1 and ns2; ns2 is declared within the subtree,
    // the others must come from outside
    let external = child.collect_external_namespace_decls(&doc);
    assert_eq!(external.len(), 2);
    assert_eq!(external.get(""), Some("http://ns1"));
    assert_eq!(external.get("ns1"), Some("http://ns1"));
    assert_eq!(external.get("ns2"), None);
}

#[test]
fn find_quantified_examples() {
    let xml = r#"<?xml version="1.0" encoding="UTF-8"?>
    <parent xmlns:ns1="http://ns1" xmlns:ns2="http://ns2">
        <ns2:child id="1"/>
        <ns1:child id="2"/>
    </parent>
    "#;
    let doc = Document::parse_str(xml).unwrap();
    let root = doc.root_element().unwrap();
    let child = root.find_quantified(&doc, "child", "http://ns1").unwrap();
    assert_eq!(child.attribute(&doc, "id"), Some("2"));

    let xml = r#"<?xml version="1.0" encoding="UTF-8"?>
    <parent xmlns="http://ns1" xmlns:ns1="http://ns1" xmlns:ns2="http://ns2">
        <ns2:child id="1" />
        <child id="2" />
        <ns1:child id="3" />
    </parent>
    "#;
    let doc = Document::parse_str(xml).unwrap();
    let root = doc.root_element().unwrap();
    let children = root.find_all_quantified(&doc, "child", "http://ns1");
    assert_eq!(children.len(), 2);
    assert_eq!(children[0].attribute(&doc, "id"), Some("2"));
    assert_eq!(children[1].attribute(&doc, "id"), Some("3"));
}

#[test]
fn enforced_encoding_self_closing() {
    let xml = r#"<?xml version="1.0" encoding="US-ASCII"?><test/>"#;
    let mut opts = ReadOptions::default();
    opts.enforce_encoding = true;
    assert!(matches!(
        Document::parse_str_with_opts(xml, opts.clone()),
        Err(Error::CannotDecode)
    ));
    opts.encoding = Some("US-ASCII".to_string());
    assert!(Document::parse_str_with_opts(xml, opts.clone()).is_ok());
    opts.encoding = Some("UTF-8".to_string());
    assert!(matches!(
        Document::parse_str_with_opts(xml, opts),
        Err(Error::CannotDecode)
    ));
}

#[test]
fn attach_precondition() {
    let xml = r#"<?xml version="1.0"?><a><b/></a>"#;
    let mut doc = Document::parse_str(xml).unwrap();
    let a = doc.root_element().unwrap();
    let b = a.child_elements(&doc)[0];
    let before = doc.write_str().unwrap();
    // b already has a parent: pushing it anywhere fails with HasAParent and
    // leaves the tree byte for byte unchanged
    assert_eq!(a.push_child(&mut doc, Node::Element(b)), Err(Error::HasAParent));
    assert_eq!(doc.write_str().unwrap(), before);
    assert_eq!(doc.push_root_node(Node::Element(b)), Err(Error::HasAParent));
    assert_eq!(doc.write_str().unwrap(), before);
}

#[test]
fn container_cannot_move() {
    let mut doc = Document::new();
    let container = doc.container();
    assert_eq!(container.detatch(&mut doc), Err(Error::ContainerCannotMove));
    let root = Element::new(&mut doc, "root");
    doc.push_root_node(Node::Element(root)).unwrap();
    assert_eq!(
        root.push_child(&mut doc, Node::Element(container)),
        Err(Error::ContainerCannotMove)
    );
}

#[test]
fn read_into_nonempty_fails() {
    let mut doc = Document::new();
    doc.read_str("<?xml version=\"1.0\"?><a/>").unwrap();
    assert!(doc.root_element().is_some());
    assert_eq!(
        doc.read_str("<?xml version=\"1.0\"?><b/>"),
        Err(Error::NotEmpty)
    );
}

#[test]
fn malformed_input_is_rejected() {
    assert!(matches!(
        Document::parse_str("<?xml version=\"1.0\"?><a><b></a>"),
        Err(Error::MalformedXML)
    ));
    // a stray comma between attributes is not well-formed XML
    assert!(matches!(
        Document::parse_str(r#"<root xmlns="ns", xmlns:p="pns"/>"#),
        Err(Error::MalformedXML)
    ));
}

#[test]
fn builder_and_setters() {
    let mut doc = Document::new();
    let root = Element::build("root")
        .attribute("id", "main")
        .attribute("class", "main")
        .finish(&mut doc);
    doc.push_root_node(root.as_node()).unwrap();
    let name = Element::build("name")
        .prefix("p")
        .namespace_decl("p", "uri:p")
        .text_content("No Name")
        .push_to(&mut doc, root);
    assert_eq!(root.attribute(&doc, "id"), Some("main"));
    assert_eq!(root.attribute(&doc, "class"), Some("main"));
    assert_eq!(name.full_name(&doc), "p:name");
    assert_eq!(name.text_content(&doc), "No Name");
    assert_eq!(name.namespace(&doc), Some("uri:p"));
    assert_eq!(name.parent(&doc), Some(root));

    name.set_name(&mut doc, "title");
    assert_eq!(name.full_name(&doc), "p:title");
    name.set_prefix(&mut doc, "");
    assert_eq!(name.full_name(&doc), "title");
    name.set_full_name(&mut doc, "q:other");
    assert_eq!(name.prefix_name(&doc), ("q", "other"));

    root.set_attribute(&mut doc, "id", "changed");
    assert_eq!(root.attribute(&doc, "id"), Some("changed"));
    root.set_namespace_decl(&mut doc, "x", "uri:x");
    assert_eq!(root.namespace_for_prefix(&doc, "x"), Some("uri:x"));

    name.set_text_content(&mut doc, "Renamed");
    assert_eq!(name.text_content(&doc), "Renamed");
    assert_eq!(name.children(&doc).len(), 1);
}

#[test]
fn tree_shape_queries() {
    let xml = r#"<?xml version="1.0"?><a><b><c/></b>mid<d/></a>"#;
    let mut doc = Document::parse_str(xml).unwrap();
    let a = doc.root_element().unwrap();
    let b = a.child_elements(&doc)[0];
    let c = b.child_elements(&doc)[0];
    assert!(a.is_root(&doc));
    assert!(!b.is_root(&doc));
    assert!(!a.is_container());
    assert!(doc.container().is_container());
    assert_eq!(c.top_parent(&doc), a);
    assert_eq!(a.top_parent(&doc), a);
    assert!(a.has_children(&doc));
    assert!(!c.has_children(&doc));
    assert!(c.has_parent(&doc));
    // a detached subtree has its own top
    b.detatch(&mut doc).unwrap();
    assert_eq!(c.top_parent(&doc), b);
    // fixed prefixes resolve without declarations
    assert_eq!(
        a.namespace_for_prefix(&doc, "xml"),
        Some("http://www.w3.org/XML/1998/namespace")
    );
    assert_eq!(
        a.namespace_for_prefix(&doc, "xmlns"),
        Some("http://www.w3.org/2000/xmlns/")
    );
    // the empty prefix with no default declaration is the empty namespace
    assert_eq!(a.namespace(&doc), Some(""));
    assert_eq!(a.closest_prefix(&doc, ""), Some(""));
}

#[test]
fn node_level_document_api() {
    let mut doc = Document::new();
    let a = Element::new(&mut doc, "a");
    doc.push_node(Node::Element(a)).unwrap();
    doc.insert_node(0, Node::Comment("lead".to_string())).unwrap();
    assert_eq!(doc.nodes().len(), 2);
    assert_eq!(doc.nodes()[1].as_element(), Some(a));
    assert_eq!(doc.root_element(), Some(a));
    let removed = doc.remove_node(0);
    assert_eq!(removed, Node::Comment("lead".to_string()));
    assert_eq!(doc.nodes().len(), 1);
    assert!(!doc.is_empty());
    // clearing children detaches every child
    let b = Element::new(&mut doc, "b");
    let c = Element::new(&mut doc, "c");
    a.push_child(&mut doc, Node::Element(b)).unwrap();
    a.push_child(&mut doc, Node::Text("t".to_string())).unwrap();
    a.push_child(&mut doc, Node::Element(c)).unwrap();
    let removed = a.clear_children(&mut doc);
    assert_eq!(removed.len(), 3);
    assert_eq!(removed[0].as_element(), Some(b));
    assert_eq!(removed[1], Node::Text("t".to_string()));
    assert_eq!(removed[2].as_element(), Some(c));
    assert_eq!(b.parent(&doc), None);
    assert_eq!(c.parent(&doc), None);
    assert_eq!(a.children(&doc).len(), 0);
    // find and find_all by local name
    let x1 = Element::new(&mut doc, "q:x");
    let x2 = Element::new(&mut doc, "x");
    let y = Element::new(&mut doc, "y");
    a.push_child(&mut doc, Node::Element(x1)).unwrap();
    a.push_child(&mut doc, Node::Element(y)).unwrap();
    a.push_child(&mut doc, Node::Element(x2)).unwrap();
    assert_eq!(a.find(&doc, "x"), Some(x1));
    assert_eq!(a.find_all(&doc, "x"), vec![x1, x2]);
    assert_eq!(a.find(&doc, "z"), None);
    // separate_prefix_name splits at the first colon
    assert_eq!(Element::separate_prefix_name("p:name"), ("p", "name"));
    assert_eq!(Element::separate_prefix_name("name"), ("", "name"));
    assert_eq!(Element::separate_prefix_name("a:b:c"), ("a", "b:c"));
}

#[test]
fn node_text_content() {
    let xml = r#"<?xml version="1.0"?><a>one<b>two</b><!--no--><![CDATA[three]]></a>"#;
    let doc = Document::parse_str(xml).unwrap();
    let a = doc.root_element().unwrap();
    assert_eq!(a.text_content(&doc), "onetwothree");
    let node = Node::Text("plain".to_string());
    assert_eq!(node.text_content(&doc), "plain");
    let node = Node::Comment("quiet".to_string());
    assert_eq!(node.text_content(&doc), "");
}

#[test]
fn exact_write_output() {
    let mut doc = Document::new();
    let root = Element::build("root").attribute("a", "1").finish(&mut doc);
    doc.push_root_node(root.as_node()).unwrap();
    let child = Element::new(&mut doc, "child");
    root.push_child(&mut doc, Node::Element(child)).unwrap();
    let written = doc.write_str().unwrap();
    assert_eq!(
        written,
        "<?xml version=\"1.0\" encoding=\"UTF-8\"?>\n<root a=\"1\">\n  <child/>\n</root>"
    );
}

#[test]
fn entities_decoded_and_reescaped() {
    let xml = "<?xml version=\"1.0\"?><a t=\"x&amp;y\">1 &lt; 2 &amp; 3 &gt; 2</a>";
    let doc = Document::parse_str(xml).unwrap();
    let a = doc.root_element().unwrap();
    // the codec decodes entities on the way in ...
    assert_eq!(a.text_content(&doc), "1 < 2 & 3 > 2");
    assert_eq!(a.attribute(&doc, "t"), Some("x&y"));
    // ... and escapes them again on the way out
    let written = doc.write_str().unwrap();
    assert!(written.contains("1 &lt; 2 &amp; 3 &gt; 2"));
    assert!(written.contains("x&amp;y"));
    let doc2 = Document::parse_str(&written).unwrap();
    let a2 = doc2.root_element().unwrap();
    assert_eq!(a2.text_content(&doc2), "1 < 2 & 3 > 2");
}

#[test]
fn leaf_node_kinds_round_trip() {
    let xml = "<?xml version=\"1.0\"?>\n<!DOCTYPE a>\n<a><!--remark--><![CDATA[raw <stuff>]]><?pi data?></a>";
    let doc = Document::parse_str(xml).unwrap();
    let a = doc.root_element().unwrap();
    assert_eq!(a.children(&doc).len(), 3);
    assert_eq!(a.children(&doc)[0], Node::Comment("remark".to_string()));
    assert_eq!(a.children(&doc)[1], Node::CData("raw <stuff>".to_string()));
    assert_eq!(a.children(&doc)[2], Node::PI("pi data".to_string()));
    assert_eq!(doc.nodes()[0], Node::DocType("a".to_string()));
    let written = doc.write_str().unwrap();
    assert!(written.contains("<!--remark-->"));
    assert!(written.contains("<![CDATA[raw <stuff>]]>"));
    assert!(written.contains("<?pi data?>"));
    assert!(written.contains("<!DOCTYPE a>"));
    let doc2 = Document::parse_str(&written).unwrap();
    let a2 = doc2.root_element().unwrap();
    assert_eq!(a2.children(&doc2), a.children(&doc));
}

#[test]
fn nameless_doctype_is_rejected() {
    // a doctype needs a name; these are refused before the tokenizer runs
    assert!(matches!(
        Document::parse_str("<!DOCTYPE>"),
        Err(Error::MalformedXML)
    ));
    assert!(matches!(
        Document::parse_str("<!DOCTYPE   >"),
        Err(Error::MalformedXML)
    ));
    assert!(matches!(
        Document::parse_str("<!doctype\t>"),
        Err(Error::MalformedXML)
    ));
    // a named doctype parses
    let doc = Document::parse_str("<!DOCTYPE a>\n<a/>").unwrap();
    assert_eq!(doc.nodes()[0], Node::DocType("a".to_string()));
}

#[test]
fn attribute_and_decl_removal() {
    let xml = r#"<?xml version="1.0"?><a k="1" m="2" xmlns:p="uri:p"><p:b/></a>"#;
    let mut doc = Document::parse_str(xml).unwrap();
    let a = doc.root_element().unwrap();
    let b = a.child_elements(&doc)[0];
    assert_eq!(a.remove_attribute(&mut doc, "k"), Some("1".to_string()));
    assert_eq!(a.attribute(&doc, "k"), None);
    assert_eq!(a.attribute(&doc, "m"), Some("2"));
    // removing again changes nothing
    assert_eq!(a.remove_attribute(&mut doc, "k"), None);
    assert_eq!(a.attribute(&doc, "m"), Some("2"));
    // dropping the declaration makes the prefix unresolvable
    assert_eq!(b.namespace(&doc), Some("uri:p"));
    assert_eq!(
        a.remove_namespace_decl(&mut doc, "p"),
        Some("uri:p".to_string())
    );
    assert_eq!(b.namespace(&doc), None);
    assert_eq!(a.remove_namespace_decl(&mut doc, "p"), None);
}
