use std::collections::VecDeque;
use visdom::nth::Nth;
use visdom::dom::{IAttrValue, INodeType};
use visdom::pattern::{check_params_return, Pattern, RegExp};
use visdom::selector::{Combinator, QueryProcess, Selector};
use visdom::tree::{relation_of, ElementRelation};
use visdom::utils::{divide_isize, RoundType};

#[test]
fn test_fn_relation_of() {
    let a: VecDeque<usize> = vec![0].into();
    let b: VecDeque<usize> = vec![0, 1].into();
    assert!(matches!(relation_of(&a, &b), ElementRelation::Ancestor));
    assert!(matches!(relation_of(&b, &a), ElementRelation::Descendant));
    let c: VecDeque<usize> = vec![1, 2, 3].into();
    assert!(matches!(relation_of(&b, &c), ElementRelation::Feauture));
    assert!(matches!(relation_of(&c, &b), ElementRelation::Feauture));
    assert!(matches!(relation_of(&c, &a), ElementRelation::Feauture));
    let d: VecDeque<usize> = vec![0, 1].into();
    assert!(matches!(relation_of(&b, &d), ElementRelation::Equal));
}

#[test]
fn test_default() {
    let def_selector = Selector::default();
    assert!(def_selector.process.is_empty());
    let def_process = QueryProcess::default();
    assert!(def_process.should_in.is_none());
    assert!(def_process.query.is_empty());
}

#[test]
fn test_combinator() {
    let comb: Combinator = Combinator::from_op(">").unwrap();
    assert_eq!(comb, Combinator::Children);
    assert_eq!(comb.reverse(), Combinator::Parent);
}

#[test]
fn test_combinator_reverse() {
    assert_eq!(Combinator::Chain.reverse(), Combinator::Chain);
}

#[test]
fn test_allow_indexs() {
    assert_eq!(
        Nth::get_allowed_indexs(&Some("-2".to_string()), &Some("3".to_string()), 9),
        vec![0, 2]
    );
    assert_eq!(
        Nth::get_allowed_indexs(&Some("2".to_string()), &Some("3".to_string()), 9),
        vec![2, 4, 6, 8]
    );
    assert_eq!(Nth::get_allowed_indexs(&None, &Some("3".to_string()), 9), vec![2]);
    assert!(Nth::get_allowed_indexs(&None, &Some("3".to_string()), 2).is_empty());
    assert_eq!(
        Nth::get_allowed_indexs(&Some("0".to_string()), &Some("3".to_string()), 9),
        vec![2]
    );
    assert!(Nth::get_allowed_indexs(&Some("0".to_string()), &Some("-3".to_string()), 9).is_empty());
    assert!(Nth::get_allowed_indexs(&Some("1".to_string()), &Some("6".to_string()), 5).is_empty());
    assert_eq!(
        Nth::get_allowed_indexs(&Some("2".to_string()), &None, 9),
        vec![1, 3, 5, 7]
    );
    assert!(Nth::get_allowed_indexs(&Some("-2".to_string()), &None, 9).is_empty());
    assert!(Nth::get_allowed_indexs(&Some("-4".to_string()), &Some("3".to_string()), 2).is_empty());
}

#[test]
fn test_check_params_return() {
    assert!(check_params_return(&["a"], Pattern::Char('c')).is_err());
    assert!(check_params_return(&["", "a"], Pattern::Char('c')).is_err());
    assert!(check_params_return(&["", ""], Pattern::Char('c')).is_ok());
}

#[test]
fn test_divide_isize() {
    // round
    // both positive
    assert_eq!(divide_isize(7, 4, RoundType::Round), 2);
    assert_eq!(divide_isize(6, 4, RoundType::Round), 2);
    assert_eq!(divide_isize(5, 4, RoundType::Round), 1);
    assert_eq!(divide_isize(4, 4, RoundType::Round), 1);
    // both negative
    assert_eq!(divide_isize(-7, -4, RoundType::Round), 2);
    assert_eq!(divide_isize(-6, -4, RoundType::Round), 2);
    assert_eq!(divide_isize(-5, -4, RoundType::Round), 1);
    assert_eq!(divide_isize(-4, -4, RoundType::Round), 1);
    // one positive, one negative
    assert_eq!(divide_isize(7, -4, RoundType::Round), -2);
    assert_eq!(divide_isize(6, -4, RoundType::Round), -2);
    assert_eq!(divide_isize(5, -4, RoundType::Round), -1);
    assert_eq!(divide_isize(4, -4, RoundType::Round), -1);
    // one positive, one negative
    assert_eq!(divide_isize(-7, 4, RoundType::Round), -2);
    assert_eq!(divide_isize(-6, 4, RoundType::Round), -2);
    assert_eq!(divide_isize(-5, 4, RoundType::Round), -1);
    assert_eq!(divide_isize(-4, 4, RoundType::Round), -1);
    // floor
    // 1
    assert_eq!(divide_isize(7, 4, RoundType::Floor), 1);
    assert_eq!(divide_isize(6, 4, RoundType::Floor), 1);
    assert_eq!(divide_isize(5, 4, RoundType::Floor), 1);
    assert_eq!(divide_isize(4, 4, RoundType::Floor), 1);
    // 2
    assert_eq!(divide_isize(-7, -4, RoundType::Floor), 1);
    assert_eq!(divide_isize(-6, -4, RoundType::Floor), 1);
    assert_eq!(divide_isize(-5, -4, RoundType::Floor), 1);
    assert_eq!(divide_isize(-4, -4, RoundType::Floor), 1);
    // 3
    assert_eq!(divide_isize(7, -4, RoundType::Floor), -2);
    assert_eq!(divide_isize(6, -4, RoundType::Floor), -2);
    assert_eq!(divide_isize(5, -4, RoundType::Floor), -2);
    assert_eq!(divide_isize(4, -4, RoundType::Floor), -1);
    // 4
    assert_eq!(divide_isize(-7, 4, RoundType::Floor), -2);
    assert_eq!(divide_isize(-6, 4, RoundType::Floor), -2);
    assert_eq!(divide_isize(-5, 4, RoundType::Floor), -2);
    assert_eq!(divide_isize(-4, 4, RoundType::Floor), -1);
    // ceil
    // 1
    assert_eq!(divide_isize(7, 4, RoundType::Ceil), 2);
    assert_eq!(divide_isize(6, 4, RoundType::Ceil), 2);
    assert_eq!(divide_isize(5, 4, RoundType::Ceil), 2);
    assert_eq!(divide_isize(4, 4, RoundType::Ceil), 1);
    // 2
    assert_eq!(divide_isize(-7, -4, RoundType::Ceil), 2);
    assert_eq!(divide_isize(-6, -4, RoundType::Ceil), 2);
    assert_eq!(divide_isize(-5, -4, RoundType::Ceil), 2);
    assert_eq!(divide_isize(-4, -4, RoundType::Ceil), 1);
    // 3
    assert_eq!(divide_isize(7, -4, RoundType::Ceil), -1);
    assert_eq!(divide_isize(6, -4, RoundType::Ceil), -1);
    assert_eq!(divide_isize(5, -4, RoundType::Ceil), -1);
    assert_eq!(divide_isize(4, -4, RoundType::Ceil), -1);
    // 4
    assert_eq!(divide_isize(-7, 4, RoundType::Ceil), -1);
    assert_eq!(divide_isize(-6, 4, RoundType::Ceil), -1);
    assert_eq!(divide_isize(-5, 4, RoundType::Ceil), -1);
    assert_eq!(divide_isize(-4, 4, RoundType::Ceil), -1);
}
#[test]
fn test_text_content() {}

#[test]
fn test_i_attr_value() {
    // string value
    let attr_value = IAttrValue::Value("Hello".into(), None);
    assert!(format!("{:?}", attr_value).contains("Hello"));
    assert!(attr_value.is_str("Hello"));
    assert!(!attr_value.is_true());
    assert_eq!(attr_value.to_list(), vec!["Hello"]);
    assert_eq!(attr_value.to_string(), "Hello");
    // flag value
    let attr_value = IAttrValue::True;
    assert!(attr_value.is_str(""));
    assert_eq!(attr_value.to_string(), "");
    assert!(attr_value.is_true());
    assert!(attr_value.to_list().is_empty());
}

#[test]
fn test_inode_type() {
    let element_type = INodeType::Element;
    assert!(format!("{:?}", element_type).contains("Element"));
    assert!(element_type.is_element());
}

#[test]
fn test_pattern_matched() {
    let nth = Pattern::Nth;
    assert!(nth.matched(&['-', 'a']).is_none());
    assert!(nth.matched(&['-', '1']).is_some());
    let part_matched = nth.matched(&['-', '2', 'n', '+', 'a']);
    assert!(part_matched.is_some());
    assert_eq!(part_matched.unwrap().chars, vec!['-', '2', 'n']);
    // attr key
    let attr_key = Pattern::AttrKey;
    assert!(attr_key.matched(&[',']).is_none());
    assert!(attr_key.matched(&[' ']).is_none());
    assert!(attr_key.matched(&['\u{0000}']).is_none());
    // regexp
    let reg_exp = Pattern::RegExp(RegExp { context: String::from("abc") });
    assert!(format!("{:?}", reg_exp).contains("abc"));
}

#[test]
#[should_panic]
fn test_wrong_combinator_string() {
    let _: Combinator = Combinator::from_op("<").unwrap();
}

#[test]
fn to_pattern_makes_the_registered_patterns() {
    let pats = visdom::pattern::init();
    assert!(visdom::pattern::to_pattern(&pats, "identity", "", "").is_ok());
    assert_eq!(
        visdom::pattern::to_pattern(&pats, "identity", "x", "").err(),
        Some(String::from("Unrecognized params 'x'"))
    );
    assert!(visdom::pattern::to_pattern(&pats, "regexp", "", "abc").is_ok());
}

#[test]
fn pattern_matches_carry_their_kind() {
    let text: Vec<char> = "abc d".chars().collect();
    assert_eq!(Pattern::Identity.matched(&text).unwrap().name, "identity");
    assert_eq!(Pattern::AttrKey.matched(&text).unwrap().name, "attr_key");
    let spaces: Vec<char> = "  x".chars().collect();
    assert_eq!(Pattern::Spaces.matched(&spaces).unwrap().name, "spaces");
    let nth: Vec<char> = "2n+1".chars().collect();
    assert_eq!(Pattern::Nth.matched(&nth).unwrap().name, "nth");
    let re = Pattern::RegExp(RegExp { context: String::from("[a-z]+") });
    assert_eq!(re.matched(&text).unwrap().name, "regexp");
    assert_eq!(Pattern::Char('a').matched(&text).unwrap().name, "");
}

#[test]
fn parse_until_reads_a_nested_selector() {
    let rules = visdom::rules::init();
    let splitter = visdom::selector::splitter();
    let chars: Vec<char> = "a)b".chars().collect();
    let until = vec![Pattern::Char(')')];
    let (n, m) = match Selector::parse_until(&chars, &until, &rules, &splitter, 0) {
        Ok(p) => p,
        Err(e) => panic!("{}", e.message()),
    };
    assert_eq!(n, 2);
    assert_eq!(m[0].chars, vec!['a']);
    assert_eq!(m[0].name, "selector");
}
