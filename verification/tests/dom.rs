use std::error::Error;
use visdom::vis::Vis;
type Result = std::result::Result<(), Box<dyn Error>>;

#[test]
fn test_dom_remove_child() -> Result {
    const HTML: &str = r#"<div><p></p><ul></ul><ol></ol></div>"#;
    let (mut doc, root) = Vis::load(HTML)?;
    let div = root.children(&doc, "div");
    let p = div.children(&doc, "p");
    let ul = div.children(&doc, "ul");
    let ol = div.children(&doc, "ol");
    // remove before
    assert_eq!(0, doc.index(p.get(0).unwrap()));
    assert_eq!(1, doc.index(ul.get(0).unwrap()));
    assert_eq!(2, doc.index(ol.get(0).unwrap()));
    p.remove(&mut doc);
    assert_eq!(0, doc.index(ul.get(0).unwrap()));
    assert_eq!(1, doc.index(ol.get(0).unwrap()));
    // remove center
    let (mut doc, root) = Vis::load(HTML)?;
    let div = root.children(&doc, "div");
    let p = div.children(&doc, "p");
    let ul = div.children(&doc, "ul");
    let ol = div.children(&doc, "ol");
    ul.remove(&mut doc);
    assert_eq!(0, doc.index(p.get(0).unwrap()));
    assert_eq!(1, doc.index(ol.get(0).unwrap()));
    // remove after
    let (mut doc, root) = Vis::load(HTML)?;
    let div = root.children(&doc, "div");
    let p = div.children(&doc, "p");
    let ul = div.children(&doc, "ul");
    let ol = div.children(&doc, "ol");
    ol.remove(&mut doc);
    assert_eq!(0, doc.index(p.get(0).unwrap()));
    assert_eq!(1, doc.index(ul.get(0).unwrap()));
    Ok(())
}

#[test]
fn test_dom_append_child() -> Result {
    const HTML: &str = r#"<div class="parent"><div class="first-child"></div></div>"#;
    let (mut doc, root) = Vis::load(HTML)?;
    let parent = root.children(&doc, ".parent");
    let first_child = parent.children(&doc, ".first-child");
    let new_childs =
        Vis::load_into(&mut doc, r#"<div class="second-child"></div><div class="third-child"></div>"#)?;
    assert_eq!(0, doc.index(first_child.get(0).unwrap()));
    parent.append(&mut doc, &new_childs);
    assert_eq!(0, doc.index(first_child.get(0).unwrap()));
    let all_childs = parent.children(&doc, "");
    let last_child = all_childs.last();
    assert_eq!(2, doc.index(last_child.get(0).unwrap()));
    // empty
    let empty = Vis::load_into(&mut doc, "")?;
    parent.append(&mut doc, &empty);
    let last_child = parent.children(&doc, "").last();
    assert_eq!(2, doc.index(last_child.get(0).unwrap()));
    Ok(())
}

#[test]
fn test_dom_prepend_child() -> Result {
    const HTML: &str = r#"<div class="parent"><div class="third-child"></div></div>"#;
    let (mut doc, root) = Vis::load(HTML)?;
    let parent = root.children(&doc, ".parent");
    let last_child = parent.children(&doc, ".third-child");
    let new_childs =
        Vis::load_into(&mut doc, r#"<div class="first-child"></div><div class="second-child"></div>"#)?;
    assert_eq!(0, doc.index(last_child.get(0).unwrap()));
    parent.prepend(&mut doc, &new_childs);
    assert_eq!(2, doc.index(last_child.get(0).unwrap()));
    let all_childs = parent.children(&doc, "");
    let first_child = all_childs.eq(0);
    assert_eq!(0, doc.index(first_child.get(0).unwrap()));
    Ok(())
}

#[test]
fn test_dom_insert_before() -> Result {
    const HTML: &str = r#"<div class="parent"><div class="third-child"></div></div>"#;
    let (mut doc, root) = Vis::load(HTML)?;
    let parent = root.children(&doc, ".parent");
    let third_child = parent.children(&doc, ".third-child");
    let inserted = Vis::load_into(&mut doc, r#"<div class="first-child"></div><div class="second-child"></div>"#)?;
    let inserted_childs = inserted.children(&doc, "");
    assert_eq!(0, doc.index(third_child.get(0).unwrap()));
    // append second child
    let second_child = inserted_childs.filter(&doc, ".second-child");
    second_child.insert_before(&mut doc, &third_child);
    assert_eq!(1, doc.index(third_child.get(0).unwrap()));
    assert_eq!(0, doc.index(second_child.get(0).unwrap()));
    assert_eq!(1, inserted.children(&doc, "").length());
    // append first_child
    let first_child = inserted_childs.filter(&doc, ".first-child");
    first_child.insert_before(&mut doc, &second_child);
    assert_eq!(2, doc.index(third_child.get(0).unwrap()));
    assert_eq!(1, doc.index(second_child.get(0).unwrap()));
    assert_eq!(0, doc.index(first_child.get(0).unwrap()));
    assert_eq!(0, inserted.children(&doc, "").length());
    Ok(())
}

#[test]
fn test_dom_insert_after() -> Result {
    const HTML: &str = r#"<div class="parent"><div class="first-child"></div></div>"#;
    let (mut doc, root) = Vis::load(HTML)?;
    let parent = root.children(&doc, ".parent");
    let first_child = parent.children(&doc, ".first-child");
    let inserted = Vis::load_into(&mut doc, r#"<div class="second-child"></div><div class="third-child"></div>"#)?;
    let inserted_childs = inserted.children(&doc, "");
    assert_eq!(0, doc.index(first_child.get(0).unwrap()));
    // append second child
    let second_child = inserted_childs.filter(&doc, ".second-child");
    second_child.insert_after(&mut doc, &first_child);
    assert_eq!(0, doc.index(first_child.get(0).unwrap()));
    assert_eq!(1, doc.index(second_child.get(0).unwrap()));
    assert_eq!(1, inserted.children(&doc, "").length());
    // append third_child
    let third_child = inserted_childs.filter(&doc, ".third-child");
    third_child.insert_after(&mut doc, &second_child);
    assert_eq!(2, doc.index(third_child.get(0).unwrap()));
    assert_eq!(1, doc.index(second_child.get(0).unwrap()));
    assert_eq!(0, doc.index(first_child.get(0).unwrap()));
    assert_eq!(0, inserted.children(&doc, "").length());
    Ok(())
}

#[test]
fn test_dom_set_html() -> Result {
    let html: &str = r#"<div class="parent"></div>"#;
    // normal tag
    let (mut doc, root) = Vis::load(html)?;
    let parent = root.children(&doc, ".parent");
    let setted = "This is a <strong>test</strong>!";
    let only_text = "This is a test!";
    parent.set_html(&mut doc, setted);
    assert_eq!(parent.text(&doc), only_text);
    assert_eq!(parent.children(&doc, "strong").length(), 1);
    assert_eq!(parent.html(&doc), setted);
    parent.set_html(&mut doc, "");
    assert!(parent.html(&doc).is_empty());
    // pre tag
    let html: &str = r#"<pre class="parent"></pre>"#;
    let (mut doc, root) = Vis::load(html)?;
    let parent = root.children(&doc, ".parent");
    parent.set_html(&mut doc, setted);
    assert_eq!(parent.html(&doc), setted);
    assert_eq!(parent.text(&doc), only_text);
    assert_eq!(parent.children(&doc, "strong").length(), 1);
    parent.set_html(&mut doc, "");
    assert!(parent.html(&doc).is_empty());
    // text node
    let text = only_text;
    let html = format!(r#"<div class="parent">{}</div>"#, text);
    let (mut doc, root) = Vis::load(&html)?;
    let parent = root.children(&doc, ".parent");
    let texts = parent.texts(&doc, 1);
    assert_eq!(texts.length(), 1);
    for &node in texts.get_ref() {
        assert_eq!(doc.text_contents(node).iter().collect::<String>(), text);
        doc.set_html(node, "This is a <strong>test</strong>!");
    }
    assert_eq!(parent.text(&doc), text);
    assert_eq!(parent.children(&doc, "strong").length(), 1);
    assert_eq!(parent.children(&doc, "strong").text(&doc), "test");
    Ok(())
}

#[test]
fn test_dom_set_text() -> Result {
    let html: &str = r#"<div class="parent"></div>"#;
    // normal tag
    let (mut doc, root) = Vis::load(html)?;
    let parent = root.children(&doc, ".parent");
    let setted = "This is a <strong>test</strong>!";
    let encoded_setted = "This is a &lt;strong&gt;test&lt;/strong&gt;!";
    parent.set_text(&mut doc, setted);
    assert_eq!(parent.text(&doc), setted);
    assert_eq!(parent.children(&doc, "strong").length(), 0);
    assert_eq!(parent.html(&doc), encoded_setted);
    parent.set_text(&mut doc, "");
    assert!(parent.text(&doc).is_empty());
    // content tag
    let html: &str = r#"<pre class="parent"></pre>"#;
    let (mut doc, root) = Vis::load(html)?;
    let parent = root.children(&doc, ".parent");
    parent.set_text(&mut doc, setted);
    assert_eq!(parent.html(&doc), encoded_setted);
    assert_eq!(parent.text(&doc), setted);
    assert_eq!(parent.children(&doc, "strong").length(), 0);
    parent.set_text(&mut doc, "");
    assert!(parent.text(&doc).is_empty());
    Ok(())
}

#[test]
fn dom_test_inner_html() -> Result {
    let inner_html = "abc<span>def</span>ghj";
    let code = format!("<div>{}</div>", inner_html);
    let (mut doc, root) = Vis::load(&code)?;
    assert_eq!(doc.inner_html(root.find(&doc, "div").get(0).unwrap()), inner_html);
    assert_eq!(root.find(&doc, "div").html(&doc), inner_html);
    assert_eq!(root.find(&doc, "p").html(&doc), "");
    Ok(())
}

#[test]
fn dom_test_outer_html() -> Result {
    let inner_html = "abc<span>def</span>ghj";
    let code = format!("<div>{}</div>", inner_html);
    let (mut doc, root) = Vis::load(&code)?;
    assert_eq!(doc.outer_html(root.find(&doc, "div").get(0).unwrap()), code);
    assert_eq!(root.find(&doc, "div").outer_html(&doc), code);
    assert_eq!(root.find(&doc, "p").outer_html(&doc), "");
    Ok(())
}

