use std::assert_eq;
use visdom::vis::Vis;
type BoxDynError = Box<dyn std::error::Error>;
type Result = std::result::Result<(), BoxDynError>;

#[test]
fn test_remove_child() -> Result {
    const HTML: &str = r#"<div><p></p><ul></ul><ol></ol></div>"#;
    let (mut doc, root) = Vis::load(HTML)?;
    let div = root.children(&doc, "div");
    let p = div.children(&doc, "p");
    let ul = div.children(&doc, "ul");
    let ol = div.children(&doc, "ol");
    // remove before
    assert_eq!(0, doc.index(p.get(0).unwrap()));
    assert_eq!(1, doc.index(ul.get(0).unwrap()));
    assert_eq!(2, doc.index(ol.get(0).unwrap()));
    p.remove(&mut doc);
    assert_eq!(0, doc.index(ul.get(0).unwrap()));
    assert_eq!(1, doc.index(ol.get(0).unwrap()));
    // remove center
    let (mut doc, root) = Vis::load(HTML)?;
    let div = root.children(&doc, "div");
    let p = div.children(&doc, "p");
    let ul = div.children(&doc, "ul");
    let ol = div.children(&doc, "ol");
    ul.remove(&mut doc);
    assert_eq!(0, doc.index(p.get(0).unwrap()));
    assert_eq!(1, doc.index(ol.get(0).unwrap()));
    // remove after
    let (mut doc, root) = Vis::load(HTML)?;
    let div = root.children(&doc, "div");
    let p = div.children(&doc, "p");
    let ul = div.children(&doc, "ul");
    let ol = div.children(&doc, "ol");
    ol.remove(&mut doc);
    assert_eq!(0, doc.index(p.get(0).unwrap()));
    assert_eq!(1, doc.index(ul.get(0).unwrap()));
    Ok(())
}

#[test]
fn mutation_test_empty() -> Result {
    let html = r#"<div id="content">This is a <strong>test</strong>!</div>"#;
    let (mut doc, root) = Vis::load(html)?;
    let content = root.find(&doc, "#content");
    assert_eq!(content.length(), 1);
    assert_eq!(content.children(&doc, "strong").length(), 1);
    content.empty(&mut doc);
    assert_eq!(content.children(&doc, "strong").length(), 0);
    assert_eq!(content.html(&doc), "");
    Ok(())
}

#[test]
fn test_remove() -> Result {
    let html = r#"<div id="content">This is a <strong>test</strong>!</div>"#;
    let (mut doc, root) = Vis::load(html)?;
    let content = root.find(&doc, "#content");
    assert_eq!(content.find(&doc, "strong").length(), 1);
    content.find(&doc, "strong").remove(&mut doc);
    assert_eq!(content.find(&doc, "strong").length(), 0);
    assert_eq!(content.text(&doc), "This is a !");
    Ok(())
}

#[test]
fn test_insert() -> Result {
    let html = r#"
  <div>
      <img src="a.png" />
      <img src="b.jpg" />
      <img src="c.webp" />
  </div>
  "#;
    let (mut doc, fragement) = Vis::load(html)?;
    let root_div = fragement.children(&doc, "div");
    let img_list = root_div.find(&doc, "img[src]");
    for &ele in img_list.get_ref() {
        let attr_src = doc.get_attribute(ele, "src").unwrap().to_string();
        if attr_src.ends_with(".png") {
            let img = Vis::dom(ele);
            let svg = Vis::load_into(&mut doc, "<svg></svg>").unwrap();
            svg.insert_before(&mut doc, &img);
            img.remove(&mut doc);
        }
    }
    let now_img_list = root_div.find(&doc, "img[src]");
    assert_eq!(now_img_list.length(), 2);
    let now_svg = root_div.find(&doc, "svg");
    assert_eq!(now_svg.length(), 1);
    Ok(())
}

#[test]
fn test_replace_with() -> Result {
    let html = r#"
  <div>
      <img src="a.png" />
      <img src="b.jpg" />
      <img src="c.webp" />
  </div>
  "#;
    let (mut doc, fragement) = Vis::load(html)?;
    let root_div = fragement.children(&doc, "div");
    let img_list = root_div.find(&doc, "img[src]");
    for &ele in img_list.get_ref() {
        let attr_src = doc.get_attribute(ele, "src").unwrap().to_string();
        if attr_src.ends_with(".png") {
            let mut img = Vis::dom(ele);
            let svg = Vis::load_into(&mut doc, "<svg></svg>").unwrap();
            img.replace_with(&mut doc, &svg);
        }
    }
    let now_img_list = root_div.find(&doc, "img[src]");
    assert_eq!(now_img_list.length(), 2);
    let now_svg = root_div.find(&doc, "svg");
    assert_eq!(now_svg.length(), 1);
    Ok(())
}
#[test]
fn test_clone() -> Result {
    let menu_html = r#"<menu class="menu">
  <h3>Title</h3>
  <ul class="list">
    <li class="item-1">item1</li>
    <li class="item-2">item2</li>
  </ul>
  </menu>"#;
    let html = format!(
        r#"
  <h2>logo</h2>
  {}
  "#,
        menu_html
    );
    let (mut doc, fragement) = Vis::load(&html)?;
    let menu = fragement.find(&doc, ">.menu");
    let clone_menu = menu.copied(&mut doc);
    let clone_h3 = clone_menu.find(&doc, ">h3");
    clone_h3.set_text(&mut doc, "h3");
    assert_eq!(menu.outer_html(&doc), menu_html);
    assert_eq!(clone_h3.text(&doc), "h3");
    let clone_item_1 = clone_menu.find(&doc, ".item-1");
    clone_item_1.add_class(&mut doc, "item");
    assert_eq!(menu.outer_html(&doc), menu_html);
    assert!(clone_item_1.has_class(&doc, "item"));
    clone_item_1.remove_class(&mut doc, "item-1");
    clone_item_1.add_class(&mut doc, "item-3");
    let list = menu.find(&doc, "ul.list");
    clone_item_1.append_to(&mut doc, &list);
    assert_eq!(menu.find(&doc, ".list > li").length(), 3);
    assert!(menu.find(&doc, ".list > li").eq(2).has_class(&doc, "item-3"));
    assert_eq!(clone_menu.find(&doc, ".list > li").length(), 1);
    assert_eq!(clone_menu.find(&doc, ".list > li").first().text(&doc), "item2");
    Ok(())
}

