use visdom::dom::INodeType;
use visdom::vis::Vis;
type BoxDynError = Box<dyn std::error::Error>;
type Result = std::result::Result<(), BoxDynError>;

#[test]
fn test_val() -> Result {
    // ---- input ----
    let html = r#"
  <input type="text" value="textinput" />
  <input type="radio" name="radioinput" value="radio1" />
  <input type="radio" name="radioinput" value="radio2" checked="checked" />
  <input type="radio" name="radioinput" value="radio3" />
  <input type="checkbox" name="checkboxinput" value="checkbox1" />
  <input type="checkbox" name="checkboxinput" value="checkbox2" checked="checked" />
  <input type="checkbox" name="checkboxinput" value="checkbox3" checked="checked" />
  <p value="abc"></p>
  <input type="text" name="novalue" />
  "#;
    let (mut doc, root) = Vis::load(html)?;
    let inputs = root.children(&doc, "input");
    assert_eq!(inputs.val(&doc).to_string(), "textinput");
    assert_eq!(inputs.filter(&doc, "[type='radio']").length(), 3);
    assert_eq!(inputs.filter(&doc, "[type='radio']:checked").length(), 1);
    assert_eq!(
        inputs.filter(&doc, "[type='radio']:checked").val(&doc).to_string(),
        "radio2"
    );
    assert_eq!(
        inputs.filter(&doc, "[name='radioinput']").eq(0).val(&doc).to_string(),
        "radio1"
    );
    assert_eq!(inputs.filter(&doc, "[type='checkbox']").length(), 3);
    assert_eq!(inputs.filter(&doc, "[type='checkbox']:checked").length(), 2);
    assert_eq!(
        inputs.filter(&doc, "[type='checkbox']:checked").val(&doc).to_string(),
        "checkbox2"
    );
    assert_eq!(root.find(&doc, "p").length(), 1);
    assert_eq!(root.find(&doc, "p").val(&doc).to_string(), "");
    assert_eq!(root.find(&doc, "div").val(&doc).to_string(), "");
    assert_eq!(root.find(&doc, "input[name='novalue']").length(), 1);
    assert_eq!(root.find(&doc, "input[name='novalue']").val(&doc).to_string(), "");
    // ---- textarea ----
    let textarea_content = r#"<div>This is the content in textarea</div>"#;
    let html = format!("<textarea>{}</textarea>", textarea_content);
    let (mut doc, root) = Vis::load(&html)?;
    let textarea = root.children(&doc, "textarea");
    assert_eq!(textarea.val(&doc).to_string(), textarea_content);
    // ---- select ----
    // select without selected option
    let html = r#"
  <select>
    <option value="1">1</option>
    <option value="2">2</option>
    <option value="3">3</option>
  </select>
  "#;
    let (mut doc, root) = Vis::load(html)?;
    let select = root.children(&doc, "select");
    assert_eq!(select.find(&doc, "option:checked").length(), 1);
    assert_eq!(select.find(&doc, "option:checked").val(&doc).to_string(), "1");
    assert_eq!(select.val(&doc).to_string(), "1");
    // select without selected option, but in optgroup
    let html = r#"
  <select>
    <optgroup>
      <option value="1">1</option>
      <option value="2">2</option>
      <option value="3">3</option>
    </optgroup>
  </select>
  "#;
    let (mut doc, root) = Vis::load(html)?;
    let select = root.children(&doc, "select");
    assert_eq!(select.find(&doc, "option:checked").length(), 0);
    assert_eq!(select.val(&doc).to_string(), "");
    // select with selected option
    let html = r#"
  <select>
    <option value="1">1</option>
    <option value="2" selected="selected">2</option>
    <option value="3">3</option>
  </select>
  "#;
    let (mut doc, root) = Vis::load(html)?;
    let select = root.children(&doc, "select");
    assert_eq!(select.find(&doc, "option:checked").length(), 1);
    assert_eq!(select.val(&doc).to_string(), "2");
    // select with selected option in optgroup
    let html = r#"
  <select>
    <optgroup>
      <option value="1">1</option>
      <option value="2" selected="selected">2</option>
      <option value="3">3</option>
    </optgroup>
  </select>
  "#;
    let (mut doc, root) = Vis::load(html)?;
    let select = root.children(&doc, "select");
    assert_eq!(select.find(&doc, "option:checked").length(), 1);
    assert_eq!(select.val(&doc).to_string(), "2");
    // multiple select with selected option
    let html = r#"
  <select multiple>
    <option value="1">1</option>
    <option value="2">2</option>
    <option value="3">3</option>
  </select>
  "#;
    let (mut doc, root) = Vis::load(html)?;
    let select = root.children(&doc, "select");
    assert_eq!(select.find(&doc, "option:checked").length(), 0);
    assert_eq!(select.val(&doc).to_string(), "");
    // multiple select with selected option in optgroup
    let html = r#"
  <select multiple>
    <optgroup>
      <option value="1">1</option>
      <option value="2">2</option>
      <option value="3">3</option>
    </optgroup>
  </select>
  "#;
    let (mut doc, root) = Vis::load(html)?;
    let select = root.children(&doc, "select");
    assert_eq!(select.find(&doc, "option:checked").length(), 0);
    assert_eq!(select.val(&doc).to_string(), "");
    // multiple select with selected option in optgroup
    let html = r#"
  <select multiple>
    <optgroup>
      <option value="1">1</option>
      <option value="2" selected>2</option>
      <option value="3" selected>3</option>
    </optgroup>
    <optgroup>
      <option value="4">4</option>
      <option value="5" selected>5</option>
      <option value="6">6</option>
    </optgroup>
    <option value="7" selected>7</option>
  </select>
  "#;
    let (mut doc, root) = Vis::load(html)?;
    let select = root.children(&doc, "select");
    assert_eq!(select.find(&doc, "option:checked").length(), 4);
    assert_eq!(select.val(&doc).to_string(), "2,3,5,7");
    assert_eq!(select.val(&doc).into_values().into_iter().collect::<String>(), "2357");
    Ok(())
}

#[test]
fn test_set_html() -> Result {
    let html: &str = r#"<div class="parent"></div>"#;
    // normal tag
    let (mut doc, root) = Vis::load(html)?;
    let parent = root.children(&doc, ".parent");
    let setted = "This is a <strong>test</strong>!";
    let only_text = "This is a test!";
    parent.set_html(&mut doc, setted);
    assert_eq!(parent.text(&doc), only_text);
    assert_eq!(parent.children(&doc, "strong").length(), 1);
    assert_eq!(parent.html(&doc), setted);
    parent.set_html(&mut doc, "");
    assert!(parent.html(&doc).is_empty());
    // pre tag
    let html: &str = r#"<pre class="parent"></pre>"#;
    let (mut doc, root) = Vis::load(html)?;
    let parent = root.children(&doc, ".parent");
    parent.set_html(&mut doc, setted);
    assert_eq!(parent.html(&doc), setted);
    assert_eq!(parent.text(&doc), only_text);
    assert_eq!(parent.children(&doc, "strong").length(), 1);
    parent.set_html(&mut doc, "");
    assert!(parent.html(&doc).is_empty());
    Ok(())
}

#[test]
fn test_text_set_html() -> Result {
    // text node
    let text = "This is a test!";
    let html = format!(r#"<div class="parent">{}</div>"#, text);
    let (mut doc, root) = Vis::load(&html)?;
    let parent = root.children(&doc, ".parent");
    let texts = parent.texts(&doc, 1);
    assert_eq!(texts.length(), 1);
    for &node in texts.get_ref() {
        assert_eq!(doc.text_contents(node).iter().collect::<String>(), text);
        doc.set_html(node, "This is a <strong>test</strong>!");
    }
    assert_eq!(parent.text(&doc), text);
    assert_eq!(parent.children(&doc, "strong").length(), 1);
    assert_eq!(parent.children(&doc, "strong").text(&doc), "test");
    Ok(())
}

#[test]
fn test_set_text() -> Result {
    let html: &str = r#"<div class="parent"></div>"#;
    // normal tag
    let (mut doc, root) = Vis::load(html)?;
    let parent = root.children(&doc, ".parent");
    let setted = "This is a <strong>test</strong>!";
    let encoded_setted = "This is a &lt;strong&gt;test&lt;/strong&gt;!";
    parent.set_text(&mut doc, setted);
    assert_eq!(parent.text(&doc), setted);
    assert_eq!(parent.children(&doc, "strong").length(), 0);
    assert_eq!(parent.html(&doc), encoded_setted);
    parent.set_text(&mut doc, "");
    assert!(parent.text(&doc).is_empty());
    // pre tag
    let html: &str = r#"<pre class="parent"></pre>"#;
    let (mut doc, root) = Vis::load(html)?;
    let parent = root.children(&doc, ".parent");
    parent.set_text(&mut doc, setted);
    assert_eq!(parent.html(&doc), encoded_setted);
    assert_eq!(parent.text(&doc), setted);
    assert_eq!(parent.children(&doc, "strong").length(), 0);
    parent.set_text(&mut doc, "");
    assert!(parent.text(&doc).is_empty());
    // script tag
    let inner_script = "var a = 1;";
    let html = format!(r#"<script>{}</script>"#, inner_script);
    let (mut doc, root) = Vis::load(&html)?;
    let script = root.find(&doc, "script");
    assert_eq!(script.length(), 1);
    assert_eq!(script.text(&doc), inner_script);
    // set text
    let inner_script = "var b = 2;";
    script.set_text(&mut doc, inner_script);
    assert_eq!(script.text(&doc), inner_script);
    // style tag
    let (mut doc, root) = Vis::load("<style></style>")?;
    let style = root.find(&doc, "style");
    assert_eq!(style.length(), 1);
    assert_eq!(style.text(&doc), "");
    let inner_style = "body{background:blue;}";
    style.set_html(&mut doc, inner_style);
    assert_eq!(style.text(&doc), inner_style);
    assert_eq!(style.html(&doc), inner_style);
    Ok(())
}

#[test]
fn content_test_inner_html() -> Result {
    let inner_html = "abc<span>def</span>ghj";
    let code = format!("<div>{}</div>", inner_html);
    let (mut doc, root) = Vis::load(&code)?;
    assert_eq!(doc.inner_html(root.find(&doc, "div").get(0).unwrap()), inner_html);
    assert_eq!(root.find(&doc, "div").html(&doc), inner_html);
    assert_eq!(root.find(&doc, "p").html(&doc), "");
    Ok(())
}

#[test]
fn test_inner_htmls() -> Result {
    let inner_html = "abc<span>def</span>ghj";
    let code = format!("<div>{}</div><div>{}</div>", inner_html, inner_html);
    let (mut doc, root) = Vis::load(&code)?;
    assert_eq!(root.find(&doc, "div").eq(0).htmls(&doc), inner_html);
    assert_eq!(
        root.find(&doc, "div").htmls(&doc),
        format!("{}{}", inner_html, inner_html)
    );
    assert_eq!(root.find(&doc, "p").htmls(&doc), "");
    Ok(())
}

#[test]
fn content_test_outer_html() -> Result {
    let inner_html = "abc<span>def</span>ghj";
    let code = format!("<div>{}</div>", inner_html);
    let (mut doc, root) = Vis::load(&code)?;
    assert_eq!(doc.outer_html(root.find(&doc, "div").get(0).unwrap()), code);
    assert_eq!(root.find(&doc, "div").outer_html(&doc), code);
    assert_eq!(root.find(&doc, "p").outer_html(&doc), "");
    Ok(())
}

#[test]
fn test_outer_htmls() -> Result {
    let inner_html = "abc<span>def</span>ghj";
    let code = format!("<div>{}</div><div>{}</div>", inner_html, inner_html);
    let (mut doc, root) = Vis::load(&code)?;
    assert_eq!(
        root.find(&doc, "div").eq(0).outer_htmls(&doc),
        format!("<div>{}</div>", inner_html)
    );
    assert_eq!(root.find(&doc, "div").outer_htmls(&doc), code);
    assert_eq!(root.find(&doc, "p").outer_htmls(&doc), "");
    Ok(())
}

#[test]
fn test_texts() -> Result {
    let html = r##"
    <div id="content">FIRST-ABC<div>SECOND-ABC<style>.a{{color:red}}</style>SECOND-DEF</div><script>var a = 1;</script>FIRST-DEF</div>
  "##;
    let (doc, root) = Vis::load(html)?;
    let content = root.find(&doc, "#content");
    let texts = content.texts(&doc, 0);
    assert_eq!(texts.length(), 6);
    // top childs
    let texts_limit = content.texts(&doc, 1);
    assert_eq!(texts_limit.length(), 3);
    // filters, ignore content nodes such as style/script
    let texts_filter = content.texts_by(&doc, 0, |_, node| !matches!(doc.node_type(node), INodeType::Element));
    assert_eq!(texts_filter.length(), 4);
    // filter also with limit depth
    let texts_filter = content.texts_by(&doc, 1, |_, node| !matches!(doc.node_type(node), INodeType::Element));
    assert_eq!(texts_filter.length(), 2);
    // just content tags
    let html = r##"<script>var a = 1;</script>"##;
    let (doc, root) = Vis::load(html)?;
    let script = root.find(&doc, "script");
    let texts = script.texts(&doc, 0);
    assert_eq!(texts.length(), 1);
    for &node in texts.get_ref() {
        assert_eq!(doc.text_contents(node).iter().collect::<String>(), "var a = 1;");
    }
    // filter content tags
    let texts = script.texts_by(&doc, 0, |_, node| !matches!(doc.node_type(node), INodeType::Element));
    assert_eq!(texts.length(), 0);
    // filter content tags and other tags
    let html = r##"<div id="text">abc<script>var a = 1;</script><svg xmlns="http://www.w3.org/2000/svg" version="1.1"><text x="0" y="15" fill="red" transform="rotate(30 20,40)">I love SVG</text></svg></div>"##;
    let (doc, root) = Vis::load(html)?;
    let text_div = root.find(&doc, "#text");
    assert_eq!(text_div.texts(&doc, 0).length(), 3);
    assert_eq!(
        text_div
            .texts_by(&doc, 0, |_, text_node| { !matches!(doc.node_type(text_node), INodeType::Element) })
            .length(),
        2
    );
    assert_eq!(
        text_div
            .texts_by_rec(
                &doc,
                0,
                |_, text_node| { !matches!(doc.node_type(text_node), INodeType::Element) },
                |ele| {
                    let tag_name = doc.tag_name(ele);
                    tag_name != "SVG"
                }
            )
            .length(),
        1
    );
    Ok(())
}

