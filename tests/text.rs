use apicius::checks::Analysis;
use apicius::parse::{parse_recipe, ParseErrorKind};
use apicius::render::table::{CellIngredient, HTMLTableOptions, Table};
use apicius::text::decimal_string;
use apicius::types::State;

const SAMPLE: &str = "
nicer scrambled eggs {
  [1/2] onion + [1 clove] garlic
    -> chop coarsely -> sautee & butter -> $mix;
  [2] eggs -> whisk -> $mix;
  $mix -> stir & salt -> <>;
}
";

#[test]
fn sample_reads_back() {
    let mut s = State::new();
    let r = parse_recipe(&mut s, SAMPLE).unwrap();
    assert_eq!(r.rules.len(), 3);
    assert_eq!(
        s.debug_recipe(&r),
        "nicer scrambled eggs {\n  [1/2] onion + [1 clove] garlic -> chop coarsely -> sautee & butter -> $mix;\n  [2] eggs -> whisk -> $mix;\n  $mix -> stir & salt -> <>;\n}\n"
    );
}

#[test]
fn sample_analysis_text() {
    let mut s = State::new();
    let r = parse_recipe(&mut s, SAMPLE).unwrap();
    let a = Analysis::from_recipe(&s, &r);
    assert_eq!(a.debug_problems(&s), "graph ok\n");
    assert_eq!(
        a.debug(&s),
        "analysis {\n  $mix\n     <- chop coarsely <- sautee <- [1/2] onion + [1 clove] garlic\n     <- whisk <- [2] eggs\n  DONE\n     <- stir <- $mix\n}\n"
    );
}

#[test]
fn sample_table() {
    let mut s = State::new();
    let r = parse_recipe(&mut s, SAMPLE).unwrap();
    let t = Analysis::from_recipe(&s, &r).into_tree().unwrap();
    assert_eq!(t.size, 3);
    assert_eq!(t.max_depth, 3);
    let table = Table::new(&s, &t);
    assert_eq!(
        table.debug(),
        " (1, 1, [1/2] onion) (1, 2, chop coarsely & ) (1, 2, sautee & butter) (1, 3, stir & salt) (1, 3, <>)\n (1, 1, [1 clove] garlic)\n (2, 1, [2] eggs) (1, 1, whisk & )\n"
    );
    let html = table.html(&HTMLTableOptions::default());
    assert!(html.contains("<td class=\"ingredient\" rowspan=\"1\" colspan=\"1\"><span class=\"amount\">1/2</span> onion</td>"));
    assert!(html.contains("<td class=\"action\" rowspan=\"3\" colspan=\"1\">stir<div class=\"seasonings\">salt </div></td>"));
    assert!(html.contains("<td class=\"ingredient\" rowspan=\"1\" colspan=\"2\"><span class=\"amount\">2</span> eggs</td>"));
}

#[test]
fn join_scenario_from_text() {
    let mut s = State::new();
    let r = parse_recipe(&mut s, "r { a -> step1 -> $j; b -> step2 -> $j; $j -> step3 -> <>; }").unwrap();
    let a = Analysis::from_recipe(&s, &r);
    assert!(a.problems().is_empty());
    let j = s.add_string("$j");
    assert_eq!(a.map()[0].key, Some(j));
    assert_eq!(a.map()[1].key, None);
    let t = a.into_tree().unwrap();
    assert_eq!((t.size, t.max_depth), (2, 2));
    let table = Table::new(&s, &t);
    assert_eq!(table.rows().len(), 2);
    assert_eq!(table.rows()[0][2].rowspan, 2);
}

#[test]
fn parse_errors() {
    let mut s = State::new();
    let e = parse_recipe(&mut s, "r a -> b;").unwrap_err();
    assert_eq!(e.kind, ParseErrorKind::OpenBrace);
    let e = parse_recipe(&mut s, "r { a -> b }").unwrap_err();
    assert_eq!(e.kind, ParseErrorKind::ArrowOrSemicolon);
    assert_eq!(e.offset, 11);
    let e = parse_recipe(&mut s, "r { [2 eggs -> b; }").unwrap_err();
    assert_eq!(e.kind, ParseErrorKind::CloseBracket);
    let e = parse_recipe(&mut s, "r { a -> -> b; }").unwrap_err();
    assert_eq!(e.kind, ParseErrorKind::Name);
    let e = parse_recipe(&mut s, "r { a -> <>;").unwrap_err();
    assert_eq!(e.kind, ParseErrorKind::EndOfText);
    let e = parse_recipe(&mut s, "r { } extra").unwrap_err();
    assert_eq!((e.kind, e.offset), (ParseErrorKind::EndOfText, 6));
}

#[test]
fn decimal_text() {
    assert_eq!(decimal_string(0), "0");
    assert_eq!(decimal_string(7), "7");
    assert_eq!(decimal_string(10), "10");
    assert_eq!(decimal_string(1234567), "1234567");
}

#[test]
fn ingredient_cells() {
    let with = CellIngredient { name: "eggs".to_string(), amount: Some("2".to_string()) };
    let opts = HTMLTableOptions::default();
    assert_eq!(with.debug(), "[2] eggs");
    assert_eq!(with.html(&opts), "<span class=\"amount\">2</span> eggs");
    let without = CellIngredient { name: "salt".to_string(), amount: None };
    assert_eq!(without.debug(), "salt");
    assert_eq!(without.html(&opts), "salt");
}

#[test]
fn interning_is_stable() {
    let mut s = State::new();
    let a = s.add_string("onion");
    let b = s.add_string("garlic");
    assert_ne!(a, b);
    assert_eq!(s.add_string("onion"), a);
    assert_eq!(s.name_count(), 2);
    assert_eq!(s.name(b).as_deref(), Some("garlic"));
    assert_eq!(s.name(99), None);
    assert_eq!(s.text(99), "");
}

#[test]
fn options_default() {
    let o = HTMLTableOptions::default();
    assert!(!o.standalone);
    assert_eq!(o.amount_class, "amount");
    assert_eq!(o.done_class, "done");
    assert!(o.html_header.contains("<html>"));
}

#[test]
fn second_recipe_gets_its_own_rules() {
    let mut s = State::new();
    let first = parse_recipe(&mut s, "one { a -> x -> <>; }").unwrap();
    let second = parse_recipe(&mut s, "two { b -> y -> $j; $j -> z -> <>; }").unwrap();
    assert_eq!(second.rules.len(), 2);
    assert_eq!(s.debug_recipe(&first), "one {\n  a -> x -> <>;\n}\n");
    assert_eq!(s.debug_recipe(&second), "two {\n  b -> y -> $j;\n  $j -> z -> <>;\n}\n");
    assert_ne!(first.rules[0], second.rules[0]);
}
