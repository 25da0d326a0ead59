use visdom::dom::INodeType;
use visdom::vis::Vis;
type BoxDynError = Box<dyn std::error::Error>;
type Result = std::result::Result<(), BoxDynError>;

#[test]
fn test_text_trait() -> Result {
    let html = r#"
    <!doctype html>
    <html>
      <head>
        <title>test text trait</title>
      </head>
      <body>
        <div id="content">Vis<span>dom</span></div>
      </body>
    </html>
  "#;
    let (mut doc, root) = Vis::load(html)?;
    // content
    let id_content = root.find(&doc, "#content");
    // get all texts
    let texts = id_content.texts(&doc, 0);
    assert_eq!(texts.length(), 2);
    let text_of = |doc: &visdom::dom::Document, i: usize| doc.text_contents(i).iter().collect::<String>();
    assert!(text_of(&doc, *texts.get_ref().get(0).unwrap()) == "Vis");
    assert!(text_of(&doc, *texts.get_ref().get(1).unwrap()) == "dom");
    // append text, prepend text
    for &node in texts.get_ref() {
        doc.prepend_text(node, "^");
        doc.append_text(node, "$");
    }
    assert!(text_of(&doc, *texts.get_ref().get(0).unwrap()) == "^Vis$");
    assert!(text_of(&doc, *texts.get_ref().get(1).unwrap()) == "^dom$");
    // remove text
    texts.remove(&mut doc);
    // get now texts
    let texts = id_content.texts(&doc, 0);
    assert_eq!(texts.length(), 0);
    // append text for content tag
    let (mut doc, root) = Vis::load("<script></script>")?;
    let script_text = root.find(&doc, "script").texts(&doc, 1);
    for &text_node in script_text.get_ref() {
        assert_eq!(text_of(&doc, text_node), "");
        doc.prepend_text(text_node, "var a;");
        doc.append_text(text_node, "var b;");
        assert_eq!(text_of(&doc, text_node), "var a;var b;");
    }
    // style
    let (mut doc, root) = Vis::load("<style></style>")?;
    let style_text = root.find(&doc, "style").texts(&doc, 1);
    for &text_node in style_text.get_ref() {
        assert_eq!(text_of(&doc, text_node), "");
        doc.append_text(text_node, "{}");
        doc.prepend_text(text_node, "body");
        assert_eq!(text_of(&doc, text_node), "body{}");
    }
    // text_contents vs text_chars
    let (doc, root) = Vis::load(r#"<a>&lt;span&gt;&amp;</a>"#)?;
    let a_link = root.find(&doc, "a");
    let texts = a_link.texts(&doc, 1);
    for &ele in texts.get_ref() {
        assert_eq!(text_of(&doc, ele), "<span>&");
        assert_eq!(doc.text_chars(ele).iter().collect::<String>(), "&lt;span&gt;&amp;");
    }
    Ok(())
}

#[test]
fn test_node_trait() -> Result {
    let html = r#"
    <!doctype html>
    <html>
      <head>
        <title>test text trait</title>
      </head>
      <body>
        <div id="content">Vis<span>dom</span></div>
      </body>
    </html>
  "#;
    let (doc, root) = Vis::load(html)?;
    // get root
    let root_element = doc.get_root_node();
    assert_eq!(root.get(0).unwrap(), root_element);
    assert!(Vis::dom(root_element).is_all_in(&Vis::dom(doc.get_root_node())));
    Ok(())
}

#[test]
fn test_node_text_trait() -> Result {
    let html = r#"
    <!doctype html>
    <html>
      <head>
        <title>test text trait</title>
      </head>
      <body>
        <div id="content">Vis<span>dom</span></div>
      </body>
    </html>
  "#;
    let (doc, root) = Vis::load(html)?;
    // content
    let content = root.find(&doc, "#content");
    assert!(!matches!(doc.node_type(content.get(0).unwrap()), INodeType::Text));
    let texts = content.texts(&doc, 1);
    for &text_node in texts.get_ref() {
        assert!(!matches!(doc.node_type(text_node), INodeType::Element));
    }
    Ok(())
}
