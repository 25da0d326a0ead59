use visdom::dom::{Document, IAttrValue};
use visdom::elements::Elements;
use visdom::selector::Combinator;
use visdom::sets::SliceEnd;
use visdom::vis::Vis;

type BoxDynError = Box<dyn std::error::Error>;
type Result = std::result::Result<(), BoxDynError>;

const HTML: &str = r##"
  <html>
    <head></head>
    <body>
      <div id="id">
        <div class="class">class-div</div>
        <p>
          p-tag
        </p>
      </div>
      <div id="nested">
        <div class="outer-div-1">
          <div class="inner-div-1-1">inner-div-1-1</div>
          <div class="inner-div-1-2">inner-div-<span>1</span>-<span>2</span></div>
        </div>
        <div class="outer-div-2">
          <div class="inner-div-2-1"></div>
          <div class="inner-div-2-2"></div>
        </div>
      </div>
    </body>
  </html>
"##;

const DL: &str = r##"
  <dl>
    <dt id="term-1">term 1</dt>
      <dd>definition 1-a</dd>
      <dd>definition 1-b</dd>
      <dd>definition 1-c</dd>
      <dd>definition 1-d</dd>
    <dt id="term-2">term 2</dt>
      <dd>definition 2-a</dd>
      <dd>definition 2-b</dd>
      <dd>definition 2-c</dd>
    <dt id="term-3">term 3</dt>
      <dd>definition 3-a</dd>
      <dd>definition 3-b</dd>
  </dl>
  "##;

const LEVELS: &str = r##"
  <ul id="one" class="level-1">
    <li class="item-i">I</li>
    <li id="ii" class="item-ii">II
      <ul class="level-2">
        <li class="item-a">A</li>
        <li class="item-b">B
          <ul class="level-3">
            <li class="item-1">1</li>
            <li class="item-2">2</li>
            <li class="item-3">3</li>
          </ul>
        </li>
        <li class="item-c">C</li>
      </ul>
    </li>
    <li class="item-iii">III</li>
  </ul>
  "##;

fn is_attr(doc: &Document, node_list: &Elements, name: &str, value: &str) -> bool {
	match node_list.attr(doc, name) {
		Some(IAttrValue::Value(v, _)) => v == value,
		_ => false,
	}
}

#[test]
fn test_method_find() -> Result {
	let (doc, root) = Vis::load(HTML)?;
	let id_ele = root.find(&doc, "div#id");
	assert_eq!(id_ele.length(), 1);
	let children = id_ele.find(&doc, "> *");
	assert_eq!(children.length(), 2);
	let p_ele = id_ele.find(&doc, "p");
	assert_eq!(p_ele.length(), 1);
	let ul_ele = id_ele.find(&doc, "ul");
	assert_eq!(ul_ele.length(), 0);
	// nested should in
	assert_eq!(root.find(&doc, "div~#nested").length(), 1);
	assert_eq!(root.find(&doc, "div+#nested").length(), 1);
	assert_eq!(root.find(&doc, "body>#nested").length(), 1);
	// should in
	let inner_div_1 = root.find(&doc, ".outer-div-1");
	let inner_div_2_2 = inner_div_1.find(&doc, "~div > .inner-div-2-2");
	assert_eq!(inner_div_2_2.length(), 1);
	let inner_div_2_2 = inner_div_1.find(&doc, "+div > .inner-div-2-2");
	assert_eq!(inner_div_2_2.length(), 1);
	let outer_div_2 = root.find(&doc, "#nested").find(&doc, "div + .inner-div-2-2");
	assert_eq!(outer_div_2.length(), 1);
	let outer_div_2 = root.find(&doc, "#nested").find(&doc, "div ~ .inner-div-2-2");
	assert_eq!(outer_div_2.length(), 1);
	// unique selector
	let div = root.find(&doc, "div");
	let inner_div_2_2 = div.find(&doc, ".inner-div-2-2");
	assert_eq!(inner_div_2_2.length(), 1);
	let firsts = div.find(&doc, ":nth-child(1)");
	assert_eq!(firsts.length(), 5);
	assert!(firsts.eq(3).is(&doc, "span"));
	let after_firsts = div.find(&doc, ":nth-child(n + 2)");
	assert_eq!(after_firsts.length(), 5);
	assert!(after_firsts.eq(0).is(&doc, "p"));
	// complex selector
	let inner_div_2_2 = id_ele.find(&doc, "~div .outer-div-1 + div > div.inner-div-2-2");
	assert_eq!(inner_div_2_2.length(), 1);
	assert!(inner_div_2_2.has_class(&doc, "inner-div-2-2"));
	// complex selector
	let inner_div_2_2 = id_ele.find(&doc, "+#nested .outer-div-1 ~ .outer-div-2 > div.inner-div-2-2");
	assert_eq!(inner_div_2_2.length(), 1);
	assert!(inner_div_2_2.has_class(&doc, "inner-div-2-2"));
	// nested
	let nested = root.find(&doc, "div#id ~ div#nested");
	assert_eq!(nested.length(), 1);
	let divs = nested.find(&doc, "div");
	assert_eq!(divs.length(), 6);
	let is_position_ok = is_attr(&doc, &divs.eq(1), "class", "inner-div-1-1");
	assert!(is_position_ok);
	let sub_divs = divs.find(&doc, "div");
	assert_eq!(sub_divs.length(), 4);
	// group
	let outer_and_inner = nested.find(&doc, "[class|='outer'],[class|='inner']");
	assert_eq!(outer_and_inner.length(), 6);
	assert!(is_attr(&doc, &outer_and_inner.eq(1), "class", "inner-div-1-1"));
	// find
	let inner_div = root.find(&doc, "div .inner-div-2-2");
	assert_eq!(inner_div.length(), 1);
	let inner_div = root.find(&doc, "div+.inner-div-2-2");
	assert_eq!(inner_div.length(), 1);
	let inner_div = root.find(&doc, "div~.inner-div-2-2");
	assert_eq!(inner_div.length(), 1);
	Ok(())
}

#[test]
fn test_method_filter() -> Result {
	let (doc, root) = Vis::load(HTML)?;
	let divs = root.find(&doc, "div");
	let id_ele = divs.filter(&doc, "#id");
	assert_eq!(id_ele.length(), 1);
	let div_in_id = divs.filter(&doc, "#id > *");
	assert_eq!(div_in_id.length(), 1);
	let outer_div_in_nested = divs.filter(&doc, "#nested > [class|='outer']");
	assert_eq!(outer_div_in_nested.length(), 2);
	let inner_div_in_nested = divs.filter(&doc, "#nested > [class|='outer'] > [class|='inner']");
	assert_eq!(inner_div_in_nested.length(), 4);
	let id_not_ok_ele = divs.filter(&doc, "div > #id");
	assert_eq!(id_not_ok_ele.length(), 0);
	let id_ok_ele = divs.filter(&doc, "html body > #id");
	assert_eq!(id_ok_ele.length(), 1);
	Ok(())
}

#[test]
fn test_method_filter_in() -> Result {
	let (doc, root) = Vis::load(HTML)?;
	let id_divs = root.find(&doc, "div[id]");
	let id_ele = id_divs.filter(&doc, "#id");
	let filter_id = id_divs.filter_in(&id_ele);
	assert_eq!(filter_id.length(), 1);
	assert!(is_attr(&doc, &filter_id, "id", "id"));
	let nested_ele = id_divs.not_in(&id_ele).eq(0);
	let filter_nested = id_divs.filter_in(&nested_ele);
	assert_eq!(filter_nested.length(), 1);
	assert!(is_attr(&doc, &filter_nested, "id", "nested"));
	Ok(())
}

#[test]
fn test_method_not() -> Result {
	let (doc, root) = Vis::load(HTML)?;
	let id_divs = root.find(&doc, "div[id]");
	let id_ele = id_divs.filter(&doc, "#id");
	assert_eq!(id_divs.not(&doc, "p").length(), id_divs.length());
	let not_id = id_ele.not(&doc, "#id");
	assert_eq!(not_id.length(), 0);
	let not_has_id = id_divs.not(&doc, "[id]");
	assert_eq!(not_has_id.length(), 0);
	Ok(())
}

#[test]
fn test_method_not_in() -> Result {
	let (doc, root) = Vis::load(HTML)?;
	let id_divs = root.find(&doc, "div[id]");
	let id_ele = id_divs.filter(&doc, "#id");
	let not_id = id_ele.not_in(&id_divs);
	assert_eq!(not_id.length(), 0);
	let not_id = id_divs.not_in(&id_ele).filter(&doc, "#id");
	assert_eq!(not_id.length(), 0);
	Ok(())
}

#[test]
fn test_method_is() -> Result {
	let (doc, root) = Vis::load(HTML)?;
	let id_divs = root.find(&doc, "div[id]");
	let id_ele = id_divs.filter(&doc, "#id");
	let nested = id_divs.filter(&doc, "#nested");
	assert!(nested.is(&doc, "#id~#nested"));
	assert!(nested.is(&doc, "div+#nested"));
	assert!(nested.is(&doc, "body > #nested"));
	assert!(id_ele.is(&doc, "body #id"));
	assert!(id_divs.is(&doc, "body > #id"));
	assert!(id_divs.is(&doc, "div[id='id']"));
	Ok(())
}

#[test]
fn test_method_is_in() -> Result {
	let (doc, root) = Vis::load(HTML)?;
	let id_divs = root.find(&doc, "div[id]");
	let id_ele = id_divs.filter(&doc, "#id");
	assert!(id_ele.is_in(&id_divs));
	assert!(id_divs.is_in(&id_ele));
	let is_not_id = !id_divs.is_in(&root.find(&doc, "div").not(&doc, "[id]"));
	assert!(is_not_id);
	Ok(())
}

#[test]
fn test_method_is_all() -> Result {
	let (doc, root) = Vis::load(HTML)?;
	let id_divs = root.find(&doc, "div[id]");
	let id_ele = id_divs.filter(&doc, "#id");
	assert!(id_ele.is_all(&doc, "body #id"));
	assert!(!id_divs.is_all(&doc, "body > #id"));
	assert!(!id_divs.is_all(&doc, "div[id='id']"));
	Ok(())
}

#[test]
fn test_method_is_all_in() -> Result {
	let (doc, root) = Vis::load(HTML)?;
	let id_divs = root.find(&doc, "div[id]");
	let id_ele = id_divs.filter(&doc, "#id");
	assert!(id_ele.is_all_in(&id_divs));
	assert!(!id_divs.is_all_in(&id_ele));
	assert!(id_divs.is_all_in(&root.find(&doc, "div")));
	assert!(!id_divs.is_all_in(&root.find(&doc, "#nested, #nested div")));
	Ok(())
}

#[test]
fn test_method_has() -> Result {
	let (doc, root) = Vis::load(HTML)?;
	let id_divs = root.find(&doc, "div[id]");
	let id_ele = id_divs.filter(&doc, "#id");
	let has_class_div = id_ele.has(&doc, "div.class");
	assert_eq!(has_class_div.length(), 1);
	let nested = id_divs.has(&doc, "[class|='outer']");
	assert_eq!(nested.length(), 1);
	assert_eq!(nested.has(&doc, "div.class").length(), 0);
	let nested = id_divs.has(&doc, "[class|='inner']");
	assert_eq!(nested.length(), 1);
	let be_id_ele = id_divs.has(&doc, "div+p");
	assert!(be_id_ele.is_all_in(&id_ele));
	Ok(())
}

#[test]
fn test_method_has_in() -> Result {
	let (doc, root) = Vis::load(HTML)?;
	let id_divs = root.find(&doc, "div[id]");
	let id_ele = id_divs.filter(&doc, "#id");
	assert_eq!(id_divs.length(), 2);
	let has_class_div = id_ele.has_in(&doc, &root.find(&doc, "div.class"));
	assert_eq!(has_class_div.length(), 1);
	let nested = id_divs.has_in(&doc, &root.find(&doc, "[class|='outer']"));
	assert_eq!(nested.length(), 1);
	assert_eq!(nested.has_in(&doc, &root.find(&doc, "div.class")).length(), 0);
	let nested = id_divs.has_in(&doc, &root.find(&doc, "[class|='inner']"));
	assert_eq!(nested.length(), 1);
	let be_id_ele = id_divs.has_in(&doc, &root.find(&doc, "div+p"));
	assert!(be_id_ele.is_all_in(&id_ele));
	Ok(())
}

#[test]
fn test_method_children() -> Result {
	let (doc, root) = Vis::load(HTML)?;
	let id_ele = root.find(&doc, "#id");
	let childs = id_ele.children(&doc, "");
	assert_eq!(childs.length(), 2);
	let child_divs = id_ele.children(&doc, "div");
	assert_eq!(child_divs.length(), 1);
	let child_p = id_ele.children(&doc, "~p");
	assert_eq!(child_p.length(), 1);
	let child_p = id_ele.children(&doc, "+p");
	assert_eq!(child_p.length(), 1);
	let child_div = id_ele.children(&doc, "~div");
	assert_eq!(child_div.length(), 0);
	let nested = root.find(&doc, "#nested");
	let nested_childs = nested.children(&doc, "");
	assert_eq!(nested_childs.length(), 2);
	let nested_sub_childs = nested.children(&doc, "div > div");
	assert_eq!(nested_sub_childs.length(), 4);
	Ok(())
}

#[test]
fn test_method_parent() -> Result {
	let (doc, root) = Vis::load(HTML)?;
	let id_ele = root.find(&doc, "#id");
	let childs = id_ele.children(&doc, "");
	let parent = childs.parent(&doc, "");
	assert_eq!(parent.length(), 1);
	let parent = childs.parent(&doc, "#notId");
	assert_eq!(parent.length(), 0);
	let still_div = childs.parent(&doc, "#id > div");
	assert_eq!(still_div.length(), 1);
	Ok(())
}

#[test]
fn test_method_parents_until() -> Result {
	let (doc, root) = Vis::load(LEVELS)?;
	let item_1 = root.find(&doc, ".item-1");
	let to_level_3 = item_1.parents_until(&doc, ".level-3", "", false);
	assert_eq!(to_level_3.length(), 0);
	let to_level_3_contains = item_1.parents_until(&doc, ".level-3", "", true);
	assert_eq!(to_level_3_contains.length(), 1);
	let to_level_1 = item_1.parents_until(&doc, ".level-1", "", false);
	assert_eq!(to_level_1.length(), 4);
	assert!(to_level_1.eq(0).has_class(&doc, "item-ii"));
	let to_level_1_items = item_1.parents_until(&doc, ".level-1", "li", false);
	assert_eq!(to_level_1_items.length(), 2);
	Ok(())
}

#[test]
fn test_method_parents() -> Result {
	let (doc, root) = Vis::load(HTML)?;
	let id_ele = root.find(&doc, "#id");
	let childs = id_ele.children(&doc, "");
	let body = childs.parents(&doc, "body");
	assert_eq!(body.length(), 1);
	Ok(())
}

#[test]
fn test_method_prev() -> Result {
	let (doc, root) = Vis::load(DL)?;
	let term_with_id = root.find(&doc, "[id^='term']");
	assert_eq!(term_with_id.length(), 3);
	let term_with_id_prev = term_with_id.prev(&doc, "");
	assert_eq!(term_with_id_prev.length(), 2);
	let term_with_id_prev = term_with_id.prev(&doc, "dt");
	assert_eq!(term_with_id_prev.length(), 0);
	Ok(())
}

#[test]
fn test_method_next() -> Result {
	let (doc, root) = Vis::load(DL)?;
	let term_with_id = root.find(&doc, "[id^='term']");
	assert_eq!(term_with_id.length(), 3);
	let term_with_id_next = term_with_id.next(&doc, "");
	assert_eq!(term_with_id_next.length(), 3);
	let term_with_id_next = term_with_id.next(&doc, "dd");
	assert_eq!(term_with_id_next.length(), 3);
	let term_with_id_next = term_with_id.next(&doc, "dt");
	assert_eq!(term_with_id_next.length(), 0);
	Ok(())
}

#[test]
fn test_method_next_all() -> Result {
	let (doc, root) = Vis::load(DL)?;
	let id_term_2 = root.find(&doc, "#term-2");
	let item_after_term_2 = id_term_2.next_all(&doc, "");
	assert_eq!(item_after_term_2.length(), 6);
	let dd_after_term_2 = id_term_2.next_all(&doc, "dd");
	assert_eq!(dd_after_term_2.length(), 5);
	let dt_after_term_2 = id_term_2.next_all(&doc, "dt");
	assert_eq!(dt_after_term_2.length(), 1);
	Ok(())
}

#[test]
fn test_method_prev_all() -> Result {
	let (doc, root) = Vis::load(DL)?;
	let id_term_2 = root.find(&doc, "#term-2");
	let item_before_term_2 = id_term_2.prev_all(&doc, "");
	assert_eq!(item_before_term_2.length(), 5);
	let dd_before_term_2 = id_term_2.prev_all(&doc, "dd");
	assert_eq!(dd_before_term_2.length(), 4);
	let dt_before_term_2 = id_term_2.prev_all(&doc, "dt");
	assert_eq!(dt_before_term_2.length(), 1);
	Ok(())
}

#[test]
fn test_method_prev_until() -> Result {
	let (doc, root) = Vis::load(DL)?;
	let id_term_2 = root.find(&doc, "#term-2");
	let dd_before_term_2 = id_term_2.prev_until(&doc, "dt", "", false);
	assert_eq!(dd_before_term_2.length(), 4);
	assert_eq!(dd_before_term_2.eq(0).text(&doc), "definition 1-a");
	let dd_and_self_before_term_2 = id_term_2.prev_until(&doc, "dt", "", true);
	assert_eq!(dd_and_self_before_term_2.length(), 5);
	let id_term_3 = root.find(&doc, "#term-3");
	let filter_before_term_3 = id_term_3.prev_until(&doc, "#term-1", ":contains('1')", true);
	assert_eq!(filter_before_term_3.length(), 5);
	Ok(())
}

#[test]
fn test_method_next_until() -> Result {
	let (doc, root) = Vis::load(DL)?;
	let id_term_2 = root.find(&doc, "#term-2");
	let wrong_dd_after_term_2 = id_term_2.next_until(&doc, ":dt", "", false);
	assert_eq!(wrong_dd_after_term_2.length(), 0);
	let dd_after_term_2 = id_term_2.next_until(&doc, "dt", "", false);
	assert_eq!(dd_after_term_2.length(), 3);
	let dd_and_self_after_term_2 = id_term_2.next_until(&doc, "dt", "", true);
	assert_eq!(dd_and_self_after_term_2.length(), 4);
	let id_term_1 = root.find(&doc, "#term-1");
	let filter_after_term_1 = id_term_1.next_until(&doc, "#term-3", ":contains('2')", false);
	assert_eq!(filter_after_term_1.length(), 4);
	let wrong_filter_after_term_1 = id_term_1.next_until(&doc, "#term-3", ":gt('2')", false);
	assert_eq!(wrong_filter_after_term_1.length(), 0);
	Ok(())
}

#[test]
fn test_method_find_closest() -> Result {
	let (doc, root) = Vis::load(LEVELS)?;
	let closest_ul = root.find(&doc, "li.item-a").closest(&doc, "ul");
	assert!(is_attr(&doc, &closest_ul, "class", "level-2"));
	let closest_self = root.find(&doc, "li.item-a").closest(&doc, "li");
	assert!(is_attr(&doc, &closest_self, "class", "item-a"));
	Ok(())
}

#[test]
fn test_method_closest() -> Result {
	let (doc, root) = Vis::load(
		r#"
	    <div class="closest">
	      <p>
	        <a class="closest">aaa</a>
          <b class="closest">bbb</b>
          <c>ccc</c>
	      </p>
	      <a>top-aaaa</a>
	    </div>
	"#,
	)?;
	let abc = root.find(&doc, "a,b,c");
	assert_eq!(abc.length(), 4);
	assert_eq!(abc.closest(&doc, ":first").length(), 0);
	assert_eq!(abc.closest(&doc, "").length(), 0);
	let closest = abc.closest(&doc, ".closest");
	assert_eq!(closest.length(), 3);
	assert_eq!(doc.tag_name(closest.eq(0).get(0).unwrap()), "DIV");
	Ok(())
}

#[test]
fn test_method_siblings() -> Result {
	let (doc, root) = Vis::load(HTML)?;
	let divs = root.find(&doc, "div");
	assert_eq!(divs.length(), 9);
	let siblings = divs.siblings(&doc, "div");
	assert_eq!(siblings.length(), 8);
	let (doc, root) = Vis::load(
		r#"
	    <div class="closest">
	      <p><a class="closest">aaa</a><b class="closest">bbb</b><c>ccc</c></p>
	      <a>top-aaaa</a>
	    </div>
	"#,
	)?;
	let abc = root.find(&doc, "a,b,c");
	let ele_c = abc.filter(&doc, "c");
	assert_eq!(ele_c.siblings(&doc, "").length(), 2);
	let ele_a = abc.filter(&doc, "a");
	assert_eq!(ele_a.siblings(&doc, "").length(), 3);
	let siblings = abc.siblings(&doc, "");
	assert_eq!(siblings.length(), 4);
	assert_eq!(doc.tag_name(siblings.eq(0).get(0).unwrap()), "P");
	assert_eq!(abc.siblings(&doc, ":nono").length(), 0);
	let siblings = abc.siblings(&doc, ".closest");
	assert_eq!(siblings.length(), 2);
	assert_eq!(doc.tag_name(siblings.eq(0).get(0).unwrap()), "A");
	let html = format!("<ul>{}</ul>", "<li></li>".repeat(3000));
	let (doc, root) = Vis::load(&html)?;
	let ul = root.find(&doc, "ul");
	let nth_2n_child = ul.find(&doc, ":nth-child(2n)");
	assert_eq!(nth_2n_child.siblings(&doc, "").length(), 3000);
	Ok(())
}

#[test]
fn test_content_text() -> Result {
	let (doc, root) = Vis::load(HTML)?;
	let inner_div_1_1 = root.find(&doc, "div.inner-div-1-1");
	assert_eq!(inner_div_1_1.text(&doc), "inner-div-1-1");
	let inner_div_1_2 = root.find(&doc, "div.inner-div-1-2");
	assert!(inner_div_1_2.children(&doc, "").length() > 0);
	assert_eq!(inner_div_1_2.text(&doc), "inner-div-1-2");
	Ok(())
}

#[test]
fn test_method_eq() -> Result {
	let (doc, root) = Vis::load(DL)?;
	let term_with_id = root.find(&doc, "[id^='term']");
	assert_eq!(term_with_id.length(), 3);
	let term_id_1 = term_with_id.eq(0);
	assert_eq!(term_id_1.length(), 1);
	assert!(term_id_1.is(&doc, "#term-1"));
	assert!(term_id_1.is_in(&term_with_id.first()));
	assert!(term_with_id.eq(2).is(&doc, "#term-3"));
	assert!(term_with_id.eq(2).is_in(&term_with_id.last()));
	assert!(term_with_id.eq(3).is_empty());
	Ok(())
}

#[test]
fn test_method_slice() -> Result {
	let (doc, root) = Vis::load(DL)?;
	let term_with_id = root.find(&doc, "[id^='term']");
	assert_eq!(term_with_id.length(), 3);
	assert_eq!(term_with_id.slice(Some(1), SliceEnd::Unbounded).length(), 2);
	assert_eq!(term_with_id.slice(Some(1), SliceEnd::Excluded(5)).length(), 2);
	assert_eq!(term_with_id.slice(None, SliceEnd::Excluded(3)).length(), 3);
	assert_eq!(term_with_id.slice(None, SliceEnd::Excluded(5)).length(), 3);
	assert_eq!(term_with_id.slice(Some(3), SliceEnd::Unbounded).length(), 0);
	Ok(())
}

#[test]
fn test_method_add() -> Result {
	let (doc, root) = Vis::load(DL)?;
	let dl = root.find(&doc, "dl");
	let dt = dl.children(&doc, "dt");
	let dd = dl.children(&doc, "dd");
	let dl_childs = dt.add(&doc, dd);
	assert_eq!(dl.children(&doc, "").length(), dl_childs.length());
	assert!(dl_childs.eq(0).is(&doc, "dt") && dl_childs.eq(0).attr(&doc, "id").unwrap().is_str("term-1"));
	assert!(dl_childs.eq(1).is(&doc, "dd") && dl_childs.eq(1).text(&doc).contains("1-a"));
	assert!(dl_childs.last().is(&doc, "dd") && dl_childs.last().text(&doc).contains("3-b"));
	let another_dl_childs = dl_childs.add(&doc, Elements::new());
	assert_eq!(another_dl_childs.length(), dl_childs.length());
	Ok(())
}

#[test]
fn test_method_for_root() -> Result {
	let (doc, root) = Vis::load(DL)?;
	assert_eq!(root.prev_all(&doc, "").length(), 0);
	assert_eq!(root.next_all(&doc, "").length(), 0);
	assert_eq!(Vis::dom(root.get(0).unwrap()).siblings(&doc, "").length(), 0);
	assert_eq!(root.parent(&doc, "").length(), 0);
	Ok(())
}

#[test]
fn test_method_contains() -> Result {
	let (doc, root) = Vis::load(DL)?;
	let dl = root.find(&doc, "dl");
	let childs = dl.children(&doc, "");
	assert!(dl.contains(&doc, childs.get(0).unwrap(), &Combinator::Children));
	assert!(dl.contains(&doc, childs.get(0).unwrap(), &Combinator::ChildrenAll));
	assert!(childs.eq(0).contains(&doc, childs.get(1).unwrap(), &Combinator::Next));
	assert!(childs.eq(0).contains(&doc, childs.get(0).unwrap(), &Combinator::Chain));
	assert!(childs.eq(0).contains(&doc, childs.get(2).unwrap(), &Combinator::NextAll));
	assert!(!childs.eq(0).contains(&doc, childs.get(2).unwrap(), &Combinator::Next));
	Ok(())
}

#[test]
fn test_method_filter_by() -> Result {
	let (doc, root) = Vis::load(HTML)?;
	let id_divs = root.find(&doc, "div[id]");
	assert_eq!(id_divs.length(), 2);
	// filter #id
	let filter_id = id_divs.filter_by(|index, _| index == 0);
	assert_eq!(filter_id.length(), 1);
	assert!(is_attr(&doc, &filter_id, "id", "id"));
	// filter #id
	let filter_id = id_divs.filter_by(|_, ele| Vis::dom(ele).is(&doc, "#id"));
	assert_eq!(filter_id.length(), 1);
	assert!(is_attr(&doc, &filter_id, "id", "id"));
	// filter #nested
	let filter_nested =
		id_divs.filter_by(|_, ele| Vis::dom(ele).has(&doc, "[class|='outer']").length() > 0);
	assert_eq!(filter_nested.length(), 1);
	assert!(is_attr(&doc, &filter_nested, "id", "nested"));
	Ok(())
}

#[test]
fn test_method_not_by() -> Result {
	let (doc, root) = Vis::load(HTML)?;
	let id_divs = root.find(&doc, "div[id]");
	let id_ele = id_divs.filter(&doc, "#id");
	// not #id
	let not_id = id_ele.not_by(|_, node| {
		doc.get_attribute(node, "id")
			.map(|v| v.is_str("id"))
			.unwrap_or(false)
	});
	assert_eq!(not_id.length(), 0);
	// not [id]
	let not_has_id = id_divs.not_by(|_, node| doc.get_attribute(node, "id").is_some());
	assert_eq!(not_has_id.length(), 0);
	Ok(())
}

#[test]
fn test_method_is_by() -> Result {
	let (doc, root) = Vis::load(HTML)?;
	let id_divs = root.find(&doc, "div[id]");
	let id_ele = id_divs.filter(&doc, "#id");
	// is #id
	let is_id = id_divs.is_by(|_, node| {
		doc.get_attribute(node, "id")
			.map(|v| v.is_str("id"))
			.unwrap_or(false)
	});
	assert!(is_id);
	// is #id
	let is_id = id_ele.is_by(|_, node| doc.get_attribute(node, "id").is_some());
	assert!(is_id);
	// not [id]
	let not_has_id = !root
		.find(&doc, "div:not([id])")
		.is_by(|_, node| doc.get_attribute(node, "id").is_some());
	assert!(not_has_id);
	Ok(())
}

#[test]
fn test_method_is_all_by() -> Result {
	let (doc, root) = Vis::load(HTML)?;
	let id_divs = root.find(&doc, "div[id]");
	let id_ele = id_divs.filter(&doc, "#id");
	// is #id
	let is_id = id_ele.is_all_by(|index, _| index == 0);
	assert!(is_id);
	// is #id
	let is_id = id_divs.is_all_by(|_, node| {
		doc.get_attribute(node, "id")
			.map(|v| v.is_str("id"))
			.unwrap_or(false)
	});
	assert!(!is_id);
	// is #id
	let is_id = id_divs.is_all_by(|_, node| doc.tag_name(node) == "DIV");
	assert!(is_id);
	Ok(())
}
