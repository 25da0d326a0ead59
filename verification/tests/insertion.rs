use visdom::vis::Vis;
type BoxDynError = Box<dyn std::error::Error>;
type Result = std::result::Result<(), BoxDynError>;

#[test]
fn test_append_child() -> Result {
    const HTML: &str = r#"<div class="parent"><div class="first-child"></div></div>"#;
    let (mut doc, root) = Vis::load(HTML)?;
    let parent = root.children(&doc, ".parent");
    let first_child = parent.children(&doc, ".first-child");
    let new_childs =
        Vis::load_into(&mut doc, r#"<div class="second-child"></div><div class="third-child"></div>"#)?;
    assert_eq!(0, doc.index(first_child.get(0).unwrap()));
    parent.append(&mut doc, &new_childs);
    assert_eq!(0, doc.index(first_child.get(0).unwrap()));
    let all_childs = parent.children(&doc, "");
    let last_child = all_childs.last();
    assert_eq!(2, doc.index(last_child.get(0).unwrap()));
    // empty
    let empty = Vis::load_into(&mut doc, "")?;
    empty.append_to(&mut doc, &parent);
    let last_child = parent.children(&doc, "").last();
    assert_eq!(2, doc.index(last_child.get(0).unwrap()));
    Ok(())
}

#[test]
fn test_prepend_child() -> Result {
    const HTML: &str = r#"<div class="parent"><div class="third-child"></div></div>"#;
    let (mut doc, root) = Vis::load(HTML)?;
    let parent = root.children(&doc, ".parent");
    let last_child = parent.children(&doc, ".third-child");
    let new_childs =
        Vis::load_into(&mut doc, r#"<div class="first-child"></div><div class="second-child"></div>"#)?;
    assert_eq!(0, doc.index(last_child.get(0).unwrap()));
    new_childs.prepend_to(&mut doc, &parent);
    assert_eq!(2, doc.index(last_child.get(0).unwrap()));
    let all_childs = parent.children(&doc, "");
    let first_child = all_childs.eq(0);
    assert_eq!(0, doc.index(first_child.get(0).unwrap()));
    Ok(())
}

#[test]
fn test_insert_before() -> Result {
    const HTML: &str = r#"<div class="parent"><div class="third-child"></div></div>"#;
    let (mut doc, root) = Vis::load(HTML)?;
    let parent = root.children(&doc, ".parent");
    let third_child = parent.children(&doc, ".third-child");
    let inserted = Vis::load_into(&mut doc, r#"<div class="first-child"></div><div class="second-child"></div>"#)?;
    let inserted_childs = inserted.children(&doc, "");
    assert_eq!(0, doc.index(third_child.get(0).unwrap()));
    // append second child
    let second_child = inserted_childs.filter(&doc, ".second-child");
    second_child.insert_before(&mut doc, &third_child);
    assert_eq!(1, doc.index(third_child.get(0).unwrap()));
    assert_eq!(0, doc.index(second_child.get(0).unwrap()));
    assert_eq!(1, inserted.children(&doc, "").length());
    // append first_child
    let first_child = inserted_childs.filter(&doc, ".first-child");
    first_child.insert_before(&mut doc, &second_child);
    assert_eq!(2, doc.index(third_child.get(0).unwrap()));
    assert_eq!(1, doc.index(second_child.get(0).unwrap()));
    assert_eq!(0, doc.index(first_child.get(0).unwrap()));
    assert_eq!(0, inserted.children(&doc, "").length());
    Ok(())
}

#[test]
fn test_insert_after() -> Result {
    const HTML: &str = r#"<div class="parent"><div class="first-child"></div></div>"#;
    let (mut doc, root) = Vis::load(HTML)?;
    let parent = root.children(&doc, ".parent");
    let first_child = parent.children(&doc, ".first-child");
    let inserted = Vis::load_into(&mut doc, r#"<div class="second-child"></div><div class="third-child"></div>"#)?;
    let inserted_childs = inserted.children(&doc, "");
    assert_eq!(0, doc.index(first_child.get(0).unwrap()));
    // append second child
    let second_child = inserted_childs.filter(&doc, ".second-child");
    second_child.insert_after(&mut doc, &first_child);
    assert_eq!(0, doc.index(first_child.get(0).unwrap()));
    assert_eq!(1, doc.index(second_child.get(0).unwrap()));
    assert_eq!(1, inserted.children(&doc, "").length());
    // append third_child
    let third_child = inserted_childs.filter(&doc, ".third-child");
    third_child.insert_after(&mut doc, &second_child);
    assert_eq!(2, doc.index(third_child.get(0).unwrap()));
    assert_eq!(1, doc.index(second_child.get(0).unwrap()));
    assert_eq!(0, doc.index(first_child.get(0).unwrap()));
    assert_eq!(0, inserted.children(&doc, "").length());
    Ok(())
}

#[test]
fn insertion_test_empty() -> Result {
    let html = r#"<div id="content">This is a <strong>test</strong>!</div>"#;
    let (mut doc, root) = Vis::load(html)?;
    let content = root.find(&doc, "#content");
    assert_eq!(content.length(), 1);
    assert_eq!(content.children(&doc, "strong").length(), 1);
    content.empty(&mut doc);
    assert_eq!(content.children(&doc, "strong").length(), 0);
    assert_eq!(content.html(&doc), "");
    Ok(())
}

#[test]
fn test_allow_insert() -> Result {
    // --- void tags, not allowed insert any html ---
    let html = r#"<div id="content"><img src="picture.jpg" /></div>"#;
    let (mut doc, root) = Vis::load(html)?;
    // set html will make no sence
    let img = root.find(&doc, "img");
    img.set_html(&mut doc, "<div class='test'></div>");
    assert_eq!(img.html(&doc), "");
    // append
    let childs = Vis::load_into(&mut doc, "abc<span>def</span><!--ghi-->")?;
    childs.append_to(&mut doc, &img);
    assert_eq!(img.html(&doc), "");
    // ----- title -----
    let html = r#"<title></title>"#;
    let (mut doc, root) = Vis::load(html)?;
    let title = root.find(&doc, "title");
    title.set_html(&mut doc, "ab<span></span>cd");
    assert_eq!(title.text(&doc), "ab<span></span>cd");
    title.empty(&mut doc);
    let content = Vis::load_into(&mut doc, "ab<span></span>cd")?;
    content.append_to(&mut doc, &title);
    assert_eq!(title.text(&doc), "abcd");
    // ----- insert self----
    let html = r#"<div id="wrapper"><div id="inner"></div></div>"#;
    let (mut doc, root) = Vis::load(html)?;
    let wrapper = root.find(&doc, "#wrapper");
    let inner = wrapper.find(&doc, "#inner");
    // insert parent to child, will make no sence
    wrapper.append_to(&mut doc, &inner);
    assert_eq!(wrapper.find(&doc, "#inner").length(), 1);
    // insert to self, will not allowed by rust
    // inner.append_to(&mut doc, &inner);
    Ok(())
}
