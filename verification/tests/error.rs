use visdom::error::Error;
use visdom::selector::Selector;
use visdom::html::ParseOptions;
use visdom::vis::Vis;

#[test]
#[should_panic]
fn test_wrong_html() {
    // unmatched tag
    let html = r#"
  <!doctype html>  
  <html>
    <head></head>
    <aa></a>
  </html>
  "#;
    let _ = Vis::load_options(html, Default::default()).unwrap();
}

#[test]
fn test_wrong_html_catch() {
    // unmatched tag
    let html = r#"
  <!doctype html>  
  <html>
    <head></head>
    <aa></a>
  </html>
  "#;
    let _ = Vis::load_options_catch(html, Default::default(), |_| {
        // ignore the error, or write a log
    });
}

#[test]
fn test_wrong_selector_catch() {
    let html = r#"
  <!doctype html>  
  <html>
    <head></head>
    <a></a>
  </html>
  "#;
    let caught = std::cell::RefCell::new(Vec::<String>::new());
    let (doc, root) = Vis::load_catch(html, |_| {}).unwrap();
    // errors will be catched here
    // error selector just get an empty elements
    // no pseudo selector ":all-child"
    let found = root.find_catch(&doc, "a:all-childs", |e| caught.borrow_mut().push(e.message()));
    assert_eq!(found.length(), 0);
    let caught = caught.into_inner();
    assert_eq!(caught.len(), 1);
    assert!(caught[0].starts_with("Call method 'find' with Invalid selector:'a:all-childs'<"));
}

#[test]
fn filter_catch_reports_a_wrong_selector() {
    let (doc, root) = Vis::load("<div><a></a></div>").unwrap();
    let divs = root.find(&doc, "div");
    let caught = std::cell::RefCell::new(Vec::<Error>::new());
    let kept = divs.filter_catch(&doc, "div:nope", |e| caught.borrow_mut().push(e));
    assert_eq!(kept.length(), 0);
    let caught = caught.into_inner();
    assert_eq!(caught.len(), 1);
    assert!(matches!(&caught[0], Error::MethodOnInvalidSelector { method, error }
        if method == "filter" && error.starts_with("Invalid selector:'div:nope'<")));
    // a selector that parses reports nothing
    let none = std::cell::RefCell::new(0);
    assert_eq!(divs.filter_catch(&doc, "div", |_| *none.borrow_mut() += 1).length(), 1);
    assert_eq!(divs.find_catch(&doc, "a", |_| *none.borrow_mut() += 1).length(), 1);
    assert_eq!(none.into_inner(), 0);
}

#[test]
fn selector_error_names_the_whole_text() {
    let r = Selector::from_str("a:all-childs", true);
    assert!(matches!(r, Err(Error::InvalidSelector { ref context, .. }) if context == "a:all-childs"));
    assert!(matches!(Selector::from_str("a:all-childs", true), Err(Error::InvalidSelector { ref reason, .. })
        if reason == "Unrecognized selector ':all-childs' at index 1"));
    assert!(matches!(Selector::from_str("a > > b", true), Err(Error::InvalidSelector { ref reason, .. })
        if reason.starts_with("Wrong combinator '")));
    assert!(matches!(Selector::from_str("a >", true), Err(Error::InvalidSelector { ref reason, .. })
        if reason == "Wrong selector rule at last"));
    // in a nested selector, the text from where it failed
    let r = Selector::from_str("a:not(:b)", true);
    assert!(matches!(r, Err(Error::InvalidSelector { ref context, ref reason })
        if context == ":b)" && reason.starts_with("Nested selector parse error at index ")));
}

#[test]
fn test_wrong_html_default_options_refused() {
    // with every switch off the unmatched end tag is an error
    let html = "<div><aa></a></div>";
    let opts: ParseOptions = Default::default();
    assert!(Vis::load_options(html, opts).is_err());
    // the library's own options fix it
    assert!(Vis::load(html).is_ok());
}

#[test]
fn check_selector_reports_for_any_method() {
    let (doc, root) = Vis::load("<div><a></a></div>").unwrap();
    let caught = std::cell::RefCell::new(Vec::<String>::new());
    assert!(!root.check_selector(&doc, "not", "a:nope", |e| caught.borrow_mut().push(e.message())));
    assert!(root.check_selector(&doc, "not", "a", |e| caught.borrow_mut().push(e.message())));
    let caught = caught.into_inner();
    assert_eq!(caught.len(), 1);
    assert!(caught[0].starts_with("Call method 'not' with Invalid selector:'a:nope'<"));
}
