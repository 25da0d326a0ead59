use visdom::vis::Vis;
type BoxDynError = Box<dyn std::error::Error>;
type Result = std::result::Result<(), BoxDynError>;

#[test]
fn test_normal_attr() -> Result {
    const ATTR_NAME: &str = "contenteditable";
    const HTML: &str = r#"<div class='first' contenteditable><input type="text" type="file" /></div><div class='test-attrs' draggable data-type='link' name='cool' data-type='override'></div>"#;
    let (mut doc, root) = Vis::load(HTML)?;
    let div = root.children(&doc, "div.first");
    // has attribute
    assert!(div.has_attr(&doc, ATTR_NAME));
    assert!(!div.has_attr(&doc, "content"));
    // get attribute
    let value = div.attr(&doc, ATTR_NAME);
    assert!(value.is_some() && value.unwrap().is_true());
    assert!(root.find(&doc, "p").attr(&doc, ATTR_NAME).is_none());
    // remove attribute
    div.remove_attr(&mut doc, ATTR_NAME);
    let now_value = div.attr(&doc, ATTR_NAME);
    assert!(now_value.is_none());
    // set again
    div.set_attr(&mut doc, ATTR_NAME, None);
    let value = div.attr(&doc, ATTR_NAME);
    assert!(value.is_some());
    assert!(value.as_ref().unwrap().is_true());
    assert!(value.as_ref().unwrap().is_str(""));
    assert!(value.as_ref().unwrap().to_string() == "");
    assert!(value.as_ref().unwrap().to_list().is_empty());
    // always get the first appeared attribute
    let input = div.children(&doc, "input");
    let value = input.attr(&doc, "type");
    assert!(value.is_some());
    assert!(value.as_ref().unwrap().is_str("text"));
    assert!(value.as_ref().unwrap().to_string() == "text");
    assert_eq!(value.as_ref().unwrap().to_list(), vec!["text"]);
    input.set_attr(&mut doc, "type", Some("file"));
    assert!(input.attr(&doc, "type").unwrap().is_str("file"));
    // attributes
    let attrs_div = root.children(&doc, "div.test-attrs");
    let div = attrs_div.get(0).unwrap();
    let attrs = doc.get_attributes(div);
    assert_eq!(attrs.len(), 4);
    let attr_1 = &attrs[0];
    assert_eq!(attr_1.0, String::from("class"));
    assert!(attr_1.1.is_str("test-attrs"));
    let attr_2 = &attrs[1];
    assert_eq!(attr_2.0, String::from("draggable"));
    assert!(attr_2.1.is_true());
    let attr_3 = &attrs[2];
    assert_eq!(attr_3.0, String::from("data-type"));
    assert!(attr_3.1.is_str("link"));
    let attr_4 = &attrs[3];
    assert_eq!(attr_4.0, String::from("name"));
    assert!(attr_4.1.is_str("cool"));
    // ignore attribute cases: issue #2
    let html: &str = r#"<input type="text" READONly /></div>"#;
    let (mut doc, root) = Vis::load(html)?;
    let input = root.children(&doc, "[readOnly]");
    assert_eq!(input.length(), 1);
    let title = "this's a title";
    input.set_attr(&mut doc, "title", Some(title));
    assert_eq!(input.attr(&doc, "title").unwrap().to_string(), title);
    let title = "\"this's a\" title";
    input.set_attr(&mut doc, "title", Some(title));
    assert_eq!(
        input.attr(&doc, "title").unwrap().to_string(),
        title.replace('\'', "&apos;")
    );
    Ok(())
}

#[test]
fn test_class_attr() -> Result {
    const HTML: &str = r#"<div class="first"></div>"#;
    const ATTR_NAME: &str = "class";
    let (mut doc, root) = Vis::load(HTML)?;
    let div = root.children(&doc, "div");
    // get class
    let value = div.attr(&doc, ATTR_NAME);
    assert!(value.is_some() && value.unwrap().is_str("first"));
    // remove class
    div.remove_class(&mut doc, "first");
    let now_value = div.attr(&doc, ATTR_NAME);
    assert!(now_value.is_some() && now_value.unwrap().is_str(""));
    // set again
    div.add_class(&mut doc, "first  second");
    let value = div.attr(&doc, ATTR_NAME);
    assert!(value.is_some());
    // get the class list
    let value = value.unwrap();
    let cls_list = value.to_list();
    assert!(cls_list.contains(&"first".to_string()));
    assert!(cls_list.contains(&"second".to_string()));
    assert!(value.is_str("first second"));
    // toggle class, remove "first", add "third"
    div.toggle_class(&mut doc, "first third");
    assert!(!div.has_class(&doc, "first"));
    assert!(div.has_class(&doc, "second"));
    assert!(div.has_class(&doc, "third"));
    let value = div.attr(&doc, ATTR_NAME).unwrap();
    assert!(value.is_str("second third"));
    // remove class and set again
    div.remove_attr(&mut doc, "class");
    assert!(!div.has_attr(&doc, "class"));
    div.add_class(&mut doc, "first");
    assert!(div.has_class(&doc, "first"));
    // remove class and toggle again
    div.remove_attr(&mut doc, "class");
    div.toggle_class(&mut doc, "first second");
    assert!(div.has_class(&doc, "first"));
    assert!(div.has_class(&doc, "second"));
    Ok(())
}

