use visdom::dom::{IAttrValue, INodeType};
use visdom::error::{invalid_selector, Error};
use visdom::form::IFormValue;
use visdom::html::ParseOptions;
use visdom::insert::InsertPosition;
use visdom::selector::Selector;
use visdom::sets::SliceEnd;
use visdom::vis::Vis;

const LIST: &str = r#"<ul id="list"><li class="a">1</li><li class="b">2</li><li class="a b">3</li><li>4</li></ul>"#;

#[test]
fn filter_is_nonempty_exactly_when_is_holds() {
    let (doc, root) = Vis::load(LIST).unwrap();
    let lis = root.find(&doc, "li");
    assert_eq!(lis.length(), 4);
    assert!(lis.is(&doc, ".a"));
    assert_eq!(lis.filter(&doc, ".a").length(), 2);
    assert!(!lis.is(&doc, ".c"));
    assert_eq!(lis.filter(&doc, ".c").length(), 0);
}

#[test]
fn filter_in_and_not_in_split_the_set() {
    let (doc, root) = Vis::load(LIST).unwrap();
    let lis = root.find(&doc, "li");
    let a = root.find(&doc, ".a");
    let kept = lis.filter_in(&a);
    let rest = lis.not_in(&a);
    assert_eq!(kept.length() + rest.length(), lis.length());
    assert_eq!(kept.length(), 2);
    assert_eq!(rest.text(&doc), "24");
}

#[test]
fn filter_by_and_not_by_split_the_set() {
    let (doc, root) = Vis::load(LIST).unwrap();
    let lis = root.find(&doc, "li");
    let even = lis.filter_by(|i, _| i % 2 == 0);
    let odd = lis.not_by(|i, _| i % 2 == 0);
    assert_eq!(even.length() + odd.length(), lis.length());
    assert_eq!(even.text(&doc), "13");
    assert_eq!(odd.text(&doc), "24");
    let texts = lis.map(|_, x| doc.text_contents(x).iter().collect::<String>());
    assert_eq!(texts, vec!["1", "2", "3", "4"]);
}

#[test]
fn add_keeps_both_sets_in_document_order() {
    let (doc, root) = Vis::load(LIST).unwrap();
    let b = root.find(&doc, ".b");
    let first = root.find(&doc, "li:first-child");
    let all = b.add(&doc, first);
    assert_eq!(all.length(), 3);
    assert_eq!(all.text(&doc), "123");
    // adding a set to itself brings nothing new
    assert_eq!(b.add(&doc, b.cloned()).length(), 2);
}

#[test]
fn removed_node_has_no_parent() {
    let (mut doc, root) = Vis::load(LIST).unwrap();
    let b = root.find(&doc, "li.b");
    let x = b.get(0).unwrap();
    let ul = root.find(&doc, "#list");
    ul.find(&doc, "li.b").eq(0).remove(&mut doc);
    assert_eq!(doc.parent(x), None);
    assert_eq!(ul.children(&doc, "").length(), 3);
    assert_eq!(ul.text(&doc), "134");
}

#[test]
fn appended_node_is_the_last_child() {
    let (mut doc, root) = Vis::load(LIST).unwrap();
    let ul = root.find(&doc, "#list");
    let first = root.find(&doc, "li:first-child");
    ul.append(&mut doc, &first);
    assert_eq!(ul.children(&doc, "").last().text(&doc), "1");
    assert_eq!(ul.text(&doc), "2341");
}

#[test]
fn set_text_leaves_one_encoded_text_child() {
    let (mut doc, root) = Vis::load("<div><b>x</b><i>y</i></div>").unwrap();
    let div = root.find(&doc, "div");
    div.set_text(&mut doc, "a<b>&c");
    let x = div.get(0).unwrap();
    assert_eq!(doc.child_nodes(x).len(), 1);
    assert_eq!(div.html(&doc), "a&lt;b&gt;&amp;c");
    assert_eq!(div.text(&doc), "a<b>&c");
    // a raw text element keeps the text as it is
    let (mut doc, root) = Vis::load("<script></script>").unwrap();
    let script = root.find(&doc, "script");
    script.set_text(&mut doc, "a<b");
    assert_eq!(script.html(&doc), "a<b");
}

#[test]
fn set_attr_then_attr_reads_it_back() {
    let (mut doc, root) = Vis::load(r#"<p title="x"></p>"#).unwrap();
    let p = root.find(&doc, "p");
    p.set_attr(&mut doc, "TITLE", Some("new"));
    assert!(p.attr(&doc, "title").unwrap().is_str("new"));
    p.set_attr(&mut doc, "data-x", None);
    assert!(p.attr(&doc, "data-x").unwrap().is_true());
    // quotes of the kind that wraps the value are written as entities
    p.set_attr(&mut doc, "alt", Some("a\"b'c"));
    assert_eq!(p.attr(&doc, "alt").unwrap().to_string(), "a\"b&apos;c");
    p.remove_attr(&mut doc, "title");
    assert!(p.attr(&doc, "title").is_none());
    assert!(!p.has_attr(&doc, "title"));
}

#[test]
fn add_class_then_has_class() {
    let (mut doc, root) = Vis::load(r#"<p class="one"></p><div></div>"#).unwrap();
    let p = root.find(&doc, "p");
    p.add_class(&mut doc, "two  three one");
    assert!(p.has_class(&doc, "one two three"));
    assert_eq!(p.attr(&doc, "class").unwrap().to_string(), "one two three");
    let div = root.find(&doc, "div");
    div.add_class(&mut doc, " x y ");
    assert!(div.has_class(&doc, "x y"));
    assert_eq!(div.attr(&doc, "class").unwrap().to_string(), " x y ");
    div.toggle_class(&mut doc, "x z");
    assert_eq!(div.attr(&doc, "class").unwrap().to_string(), "y z");
    div.remove_class(&mut doc, "y");
    assert_eq!(div.attr(&doc, "class").unwrap().to_list(), vec!["z"]);
}

#[test]
fn copies_render_as_the_original() {
    let (mut doc, root) = Vis::load(r#"<div id="a"><p class="x">t<b>u</b></p></div>"#).unwrap();
    let p = root.find(&doc, "p");
    let copy = p.copied(&mut doc);
    assert_eq!(copy.length(), 1);
    let c = copy.get(0).unwrap();
    assert_eq!(doc.parent(c), None);
    assert_eq!(copy.outer_html(&doc), p.outer_html(&doc));
    // the copy is independent of the original
    copy.find(&doc, "b").set_text(&mut doc, "v");
    assert_eq!(p.text(&doc), "tu");
    assert_eq!(copy.text(&doc), "tv");
}

#[test]
fn loaded_fragment_lives_in_the_document() {
    let (mut doc, root) = Vis::load("<div></div>").unwrap();
    let before = doc.len();
    let frag = Vis::load_into(&mut doc, "<i>1</i><i>2</i>").unwrap();
    assert_eq!(frag.get(0).unwrap(), before);
    assert!(matches!(doc.node_type(before), INodeType::DocumentFragement));
    assert_eq!(frag.children(&doc, "i").length(), 2);
    let div = root.find(&doc, "div");
    div.append(&mut doc, &frag);
    assert_eq!(div.html(&doc), "<i>1</i><i>2</i>");
    assert_eq!(frag.children(&doc, "").length(), 0);
}

#[test]
fn parse_options_decide_what_is_refused() {
    let strict: ParseOptions = Default::default();
    assert!(Vis::load_options("<p></a></p>", strict).is_err());
    let mut doc = Vis::load("<p></p>").unwrap().0;
    let n = doc.len();
    assert!(doc.load_fragment("<p></a></p>").is_ok());
    assert!(doc.len() > n);
}

#[test]
fn element_siblings_and_child_nodes() {
    let (doc, root) = Vis::load("<ul>a<li>1</li>b<li>2</li><li>3</li></ul>").unwrap();
    let ul = root.find(&doc, "ul").get(0).unwrap();
    assert_eq!(doc.child_nodes(ul).len(), 5);
    let lis = doc.children(ul);
    assert_eq!(lis.len(), 3);
    assert_eq!(doc.previous_element_sibling(lis[1]), Some(lis[0]));
    assert_eq!(doc.next_element_sibling(lis[1]), Some(lis[2]));
    assert_eq!(doc.previous_element_sibling(lis[0]), None);
    assert_eq!(doc.next_element_siblings(lis[0]), vec![lis[1], lis[2]]);
    assert_eq!(doc.element_siblings(lis[1]), vec![lis[0], lis[2]]);
    assert_eq!(doc.previous_element_siblings(lis[2]), vec![lis[0], lis[1]]);
}

#[test]
fn attributes_in_order_of_first_appearance() {
    let (doc, root) = Vis::load(r#"<a Href="x" b c="1" href="y"></a>"#).unwrap();
    let a = root.find(&doc, "a").get(0).unwrap();
    let attrs = doc.get_attributes(a);
    assert_eq!(attrs.len(), 3);
    assert_eq!(attrs[0].0, "href");
    assert!(attrs[0].1.is_str("x"));
    assert!(attrs[1].1.is_true());
    assert!(matches!(&attrs[2].1, IAttrValue::Value(v, _) if v == "1"));
}

#[test]
fn form_values() {
    let (doc, root) = Vis::load(r#"<select multiple><option value="1" selected>1</option><option value="2" selected>2</option></select>"#).unwrap();
    let v = root.find(&doc, "select").val(&doc);
    assert_eq!(v.to_string(), "1,2");
    assert_eq!(v.into_values(), vec!["1", "2"]);
    assert!(IFormValue::Single(String::from("x")).into_values().is_empty());
}

#[test]
fn text_filters_and_changes() {
    let (mut doc, root) = Vis::load("<p>a<b>b</b>c</p>").unwrap();
    let mut texts = root.find(&doc, "p").texts(&doc, 1);
    assert_eq!(texts.length(), 2);
    let second = texts.filter_by(|i, _| i == 1);
    assert_eq!(second.length(), 1);
    texts.get_mut_ref().pop();
    assert_eq!(texts.length(), 1);
    let t = texts.get_ref()[0];
    doc.append_text(t, "!");
    doc.prepend_text(t, "<");
    assert_eq!(root.find(&doc, "p").text(&doc), "<a!bc");
}

#[test]
fn insert_position_actions() {
    assert_eq!(InsertPosition::BeforeBegin.action(), "insert before");
    assert_eq!(InsertPosition::AfterBegin.action(), "prepend");
    assert_eq!(InsertPosition::BeforeEnd.action(), "append");
    assert_eq!(InsertPosition::AfterEnd.action(), "insert after");
}

#[test]
fn error_messages() {
    let e = invalid_selector(&['a', ':'], "unexpected end at ", 2);
    assert_eq!(e.message(), "Invalid selector:'a:'<unexpected end at 2>");
    let e = Error::MethodOnInvalidSelector { method: String::from("find"), error: String::from("x") };
    assert_eq!(e.message(), "Call method 'find' with x");
    let e = Error::InvalidTraitMethodCall { method: String::from("m"), message: String::from("n") };
    assert_eq!(e.message(), "Call method 'm' cause an error: n");
    assert!(Selector::from_str("a:all-childs", true).is_err());
    assert!(Selector::from_str("div > p, a[href]", true).is_ok());
}

#[test]
fn regex_and_nth_selectors() {
    let (doc, root) = Vis::load(LIST).unwrap();
    assert_eq!(root.find(&doc, "li:contains('3')").length(), 1);
    assert_eq!(root.find(&doc, "li[class~='b']").length(), 2);
    assert_eq!(root.find(&doc, "li:nth-child(2n+1)").text(&doc), "13");
    assert_eq!(root.find(&doc, "li:nth-last-child(1)").text(&doc), "4");
    assert_eq!(root.find(&doc, "li").slice(Some(1), SliceEnd::Excluded(3)).text(&doc), "23");
}

#[test]
fn texts_by_depth() {
    let (doc, root) = Vis::load("<div>a<p>b<i>c</i></p><script>d</script></div>").unwrap();
    let div = root.find(&doc, "div");
    let all = div.texts(&doc, 0);
    assert_eq!(all.length(), 4);
    // every text answered `true` gives what `texts` gives
    let same = div.texts_by(&doc, 0, |_, _| true);
    assert_eq!(same.get_ref(), all.get_ref());
    // the top level only: "a" and the script
    let top = div.texts_by(&doc, 0, |depth, _| depth == 0);
    assert_eq!(top.length(), 2);
    let x = div.get(0).unwrap();
    let at = doc.texts_at(x, 0);
    assert_eq!(at.iter().map(|p| p.1).collect::<Vec<usize>>(), vec![0, 1, 2, 0]);
}

#[test]
fn for_each_stops_at_first_false() {
    let (mut doc, root) = Vis::load(LIST).unwrap();
    let mut lis = root.find(&doc, "li");
    let mut seen: Vec<usize> = Vec::new();
    let back = lis
        .for_each(|i, _| {
            seen.push(i);
            i < 1
        })
        .length();
    assert_eq!(back, 4);
    assert_eq!(seen, vec![0, 1]);
    let mut all = 0;
    lis.each(|_, _| {
        all += 1;
        true
    });
    assert_eq!(all, 4);
    // the visitor may change the document
    let mut texts = root.find(&doc, "#list").texts(&doc, 0);
    let mut n = 0;
    texts.for_each(|_, node| {
        doc.prepend_text(node, "^");
        n += 1;
        true
    });
    assert_eq!(n, 4);
    assert_eq!(root.find(&doc, "#list").text(&doc), "^1^2^3^4");
    let mut once = 0;
    texts.each(|_, _| {
        once += 1;
        false
    });
    assert_eq!(once, 1);
}

#[test]
fn catch_hands_the_error_to_the_handler() {
    let called = std::cell::Cell::new(false);
    assert!(Vis::load_options_catch("<p></a></p>", Default::default(), |_| called.set(true)).is_none());
    assert!(called.get());
    let called = std::cell::Cell::new(false);
    assert!(Vis::load_catch("<p></a></p>", |_| called.set(true)).is_some());
    assert!(!called.get());
}

#[test]
fn ids_name_the_last_element_written_with_them() {
    let (doc, root) = Vis::load(r#"<p id="a">1</p><div ID="a">2</div><i id="b">3</i>"#).unwrap();
    let a = doc.get_element_by_id("a").unwrap();
    assert_eq!(doc.tag_name(a), "DIV");
    let b = doc.get_element_by_id("b").unwrap();
    assert_eq!(doc.tag_name(b), "I");
    assert_eq!(doc.get_element_by_id("c"), None);
    assert_eq!(root.find(&doc, "#a").text(&doc), "2");
}

#[test]
fn load_then_source_gives_the_text_back() {
    let html = "<!DOCTYPE html><div id=\"a\" class='b'>x<!--c--><p>y</p></div>";
    let (doc, _) = Vis::load(html).unwrap();
    assert_eq!(doc.source_code(), html);
}

#[test]
fn load_fragment_reads_the_whole_tree() {
    let (mut doc, _) = Vis::load("<div></div>").unwrap();
    let before = doc.nodes.len();
    let x = doc.load_fragment("<p>a<b>c</b></p>").unwrap();
    assert_eq!(x, before);
    // the new root, the p, its text, the b and its text
    assert_eq!(doc.nodes.len(), before + 5);
    assert_eq!(doc.outer_html(x), "<p>a<b>c</b></p>");
    // a root gives the content of its one element
    assert_eq!(doc.inner_html(x), "a<b>c</b>");
}
