//! Behavioral tests of the document model, parsing and namespace queries.

use xml_doc::{Document, Element, Error, Node, ReadOptions};

#[test]
fn document_test_add_element() {
    let xml = r#"<?xml version="1.0" encoding="UTF-8"?>
        <basic>
            Text
            <c />
        </basic>
        "#;
    let mut doc = Document::from_str(xml).unwrap();
    let basic = doc.container().children(&doc)[0].as_element().unwrap();
    let p = Element::new(&mut doc, "p");
    basic.push_child(&mut doc, Node::Element(p)).unwrap();
    assert_eq!(p.parent(&doc).unwrap(), basic);
    assert_eq!(
        p,
        basic.children(&doc).last().unwrap().as_element().unwrap()
    )
}

#[test]
fn test_enforce_encoding() {
    // This document can be parsed without issues if we don't require a specific encoding,
    // but it is not UTF-8 and hence should fail if we specifically request UTF-8.
    let xml = "<?xml version=\"1.0\" encoding=\"US-ASCII\"?><test></test>";
    assert!(Document::parse_str(xml).is_ok());
    let mut opts = ReadOptions::default();
    opts.enforce_encoding = true;
    // We have not specified any encoding, hence this should always fail.
    assert!(matches!(
        Document::parse_str_with_opts(xml, opts.clone()),
        Err(Error::CannotDecode)
    ));
    // With the correct encoding, this should now work.
    opts.encoding = Some("US-ASCII".to_string());
    let doc = Document::parse_str_with_opts(xml, opts.clone()).unwrap();
    assert_eq!(doc.root_element().unwrap().name(&doc), "test");
    // But with a different encoding, we should fail again.
    opts.encoding = Some("UTF-8".to_string());
    assert!(matches!(
        Document::parse_str_with_opts(xml, opts.clone()),
        Err(Error::CannotDecode)
    ));

    // Do a similar thing with a UTF document, because UTF gets special treatment in the
    // library logic.
    let xml = "<?xml version=\"1.0\" encoding=\"UTF-8\"?><test></test>";
    assert!(Document::parse_str(xml).is_ok());
    let mut opts = ReadOptions::default();
    opts.enforce_encoding = true;
    assert!(matches!(
        Document::parse_str_with_opts(xml, opts.clone()),
        Err(Error::CannotDecode)
    ));
    opts.encoding = Some("US-ASCII".to_string());
    assert!(matches!(
        Document::parse_str_with_opts(xml, opts.clone()),
        Err(Error::CannotDecode)
    ));
    opts.encoding = Some("UTF-8".to_string());
    let doc = Document::parse_str_with_opts(xml, opts.clone()).unwrap();
    assert_eq!(doc.root_element().unwrap().name(&doc), "test");
}

#[test]
fn test_children() {
    let xml = r#"<?xml version="1.0" encoding="UTF-8"?>
        <outer>
            inside outer
            <middle>
                <inner>
                    inside
                </inner>
                after inside
            </middle>
            <after>
                inside after
            </after>
        </outer>
        "#;
    let doc = Document::parse_str(xml).unwrap();
    let outer = doc.container().child_elements(&doc)[0];
    let middle = outer.child_elements(&doc)[0];
    let inner = middle.child_elements(&doc)[0];
    let after = outer.child_elements(&doc)[1];
    assert_eq!(doc.container().child_elements(&doc).len(), 1);
    assert_eq!(outer.name(&doc), "outer");
    assert_eq!(middle.name(&doc), "middle");
    assert_eq!(inner.name(&doc), "inner");
    assert_eq!(after.name(&doc), "after");
    assert_eq!(outer.children(&doc).len(), 3);
    assert_eq!(outer.child_elements(&doc).len(), 2);
    assert_eq!(doc.container().children_recursive(&doc).len(), 8);
    assert_eq!(
        doc.container().child_elements_recursive(&doc),
        vec![outer, middle, inner, after]
    );
}

#[test]
fn element_test_namespace() {
    let xml = r#"<?xml version="1.0" encoding="UTF-8"?>
        <root xmlns="ns" xmlns:p="pns">
            <p:foo xmlns="inner">
                Hello
            </p:foo>
            <p:bar xmlns:p="in2">
                <c />
                World!
            </p:bar>
        </root>"#;
    let doc = Document::parse_str(xml).unwrap();
    let container = doc.container().children(&doc)[0].as_element().unwrap();
    let child_elements = container.child_elements(&doc);
    let foo = *child_elements.get(0).unwrap();
    let bar = *child_elements.get(1).unwrap();
    let c = bar.child_elements(&doc)[0];
    assert_eq!(c.prefix_name(&doc), ("", "c"));
    assert_eq!(bar.full_name(&doc), "p:bar");
    assert_eq!(bar.prefix(&doc), "p");
    assert_eq!(bar.name(&doc), "bar");
    assert_eq!(c.namespace(&doc).unwrap(), "ns");
    assert_eq!(c.namespace_for_prefix(&doc, "p").unwrap(), "in2");
    assert!(c.namespace_for_prefix(&doc, "random").is_none());
    assert_eq!(bar.namespace(&doc).unwrap(), "in2");
    assert_eq!(bar.namespace_for_prefix(&doc, "").unwrap(), "ns");
    assert_eq!(foo.namespace(&doc).unwrap(), "pns");
    assert_eq!(foo.namespace_for_prefix(&doc, "").unwrap(), "inner");
    assert_eq!(foo.namespace_for_prefix(&doc, "p").unwrap(), "pns");
    assert_eq!(container.namespace(&doc).unwrap(), "ns");
}

#[test]
fn test_find_text_content() {
    let xml = r#"<?xml version="1.0" encoding="UTF-8"?>
        <core>
            <p>Text</p>
            <b>Text2</b>
        </core>
        "#;
    let doc = Document::parse_str(xml).unwrap();
    assert_eq!(
        doc.root_element()
            .unwrap()
            .find(&doc, "p")
            .unwrap()
            .text_content(&doc),
        "Text"
    );
    assert_eq!(
        doc.root_element()
            .unwrap()
            .find(&doc, "b")
            .unwrap()
            .text_content(&doc),
        "Text2"
    );
    assert_eq!(doc.root_element().unwrap().text_content(&doc), "TextText2")
}

#[test]
fn test_mutate_tree() {
    // Test tree consistency after mutating tree
    let mut doc = Document::new();
    let container = doc.container();
    assert_eq!(container.parent(&doc), None);
    assert_eq!(container.children(&doc).len(), 0);

    // Element::build.push_to
    let root = Element::build("root").push_to(&mut doc, container);
    assert_eq!(root.parent(&doc).unwrap(), container);
    assert_eq!(doc.root_element().unwrap(), root);

    // Element::new
    let a = Element::new(&mut doc, "a");
    assert_eq!(a.parent(&doc), None);

    // Element.push_child
    root.push_child(&mut doc, Node::Element(a)).unwrap();
    assert_eq!(root.children(&doc)[0].as_element().unwrap(), a);
    assert_eq!(a.parent(&doc).unwrap(), root);

    // Element.pop
    let popped = root.pop_child(&mut doc).unwrap().as_element().unwrap();
    assert_eq!(popped, a);
    assert_eq!(root.children(&doc).len(), 0);
    assert_eq!(a.parent(&doc), None);

    // Element.push_to
    let a = Element::new(&mut doc, "a");
    a.push_to(&mut doc, root).unwrap();
    assert_eq!(root.children(&doc)[0].as_element().unwrap(), a);
    assert_eq!(a.parent(&doc).unwrap(), root);

    // Element.remove_child
    root.remove_child(&mut doc, 0);
    assert_eq!(root.children(&doc).len(), 0);
    assert_eq!(a.parent(&doc), None);

    // Element.insert_child
    let a = Element::new(&mut doc, "a");
    root.insert_child(&mut doc, 0, Node::Element(a)).unwrap();
    assert_eq!(root.children(&doc)[0].as_element().unwrap(), a);
    assert_eq!(a.parent(&doc).unwrap(), root);

    // Element.detatch
    a.detatch(&mut doc).unwrap();
    assert_eq!(root.children(&doc).len(), 0);
    assert_eq!(a.parent(&doc), None);
}

#[test]
fn lib_test_add_element() {
    let xml = r#"
        <basic>
            Text
            <c />
        </basic>
        "#;
    let mut document = Document::from_str(xml).unwrap();
    let basic = document.nodes()[0].as_element().unwrap();
    let p = Element::new(&mut document, "p");
    basic.push_child(&mut document, Node::Element(p)).unwrap();
    assert_eq!(p.parent(&document).unwrap(), basic);
    assert_eq!(
        p,
        basic
            .children(&document)
            .last()
            .unwrap()
            .as_element()
            .unwrap()
    )
}

#[test]
fn lib_test_namespace() {
    // The arena-facing variant of the namespace test. Its original input
    // put a stray comma between the root's attributes; the codec rejects
    // that as malformed XML (see the malformed-input test), so the comma is
    // dropped here and every assertion kept.
    let xml = r#"
        <root xmlns="ns" xmlns:p="pns">
            <p:foo xmlns="inner">
                Hello
            </p:foo>
            <p:bar xmlns:p="in2">
                <c />
                World!
            </p:bar>
        </root>"#;
    let doc = Document::from_str(xml).unwrap();
    let root = doc.nodes()[0].as_element().unwrap();
    let child_elements = root.child_elements(&doc);
    let foo = *child_elements.get(0).unwrap();
    let bar = *child_elements.get(1).unwrap();
    let c = bar.child_elements(&doc)[0];
    assert_eq!(c.prefix_name(&doc), ("", "c"));
    assert_eq!(bar.full_name(&doc), "p:bar");
    assert_eq!(bar.prefix(&doc), "p");
    assert_eq!(bar.name(&doc), "bar");
    assert_eq!(c.namespace(&doc).unwrap(), "ns");
    assert_eq!(c.namespace_for_prefix(&doc, "p").unwrap(), "in2");
    assert!(c.namespace_for_prefix(&doc, "random").is_none());
    assert_eq!(bar.namespace(&doc).unwrap(), "in2");
    assert_eq!(bar.namespace_for_prefix(&doc, "").unwrap(), "ns");
    assert_eq!(foo.namespace(&doc).unwrap(), "pns");
    assert_eq!(foo.namespace_for_prefix(&doc, "").unwrap(), "inner");
    assert_eq!(foo.namespace_for_prefix(&doc, "p").unwrap(), "pns");
    assert_eq!(root.namespace(&doc).unwrap(), "ns");
}
