use apicius::checks::{Analysis, Problem};
use apicius::render::table::{CellData, HTMLTableOptions, Table};
use apicius::types::{
    Action, ActionStep, Ingredient, IngredientRef, Input, Loc, Recipe, Rule, State, StringRef,
};

fn at(value: u32) -> StringRef {
    Loc { l: 0, r: 0, value }
}

fn ingredient(s: &mut State, name: &str) -> IngredientRef {
    let stuff = at(s.add_string(name));
    s.add_ingredient(Ingredient { amount: None, stuff })
}

fn step(s: &mut State, name: &str) -> Action {
    let action = at(s.add_string(name));
    Action::Action { step: ActionStep { action, seasonings: vec![] } }
}

fn join(s: &mut State, name: &str) -> Action {
    Action::Join { point: at(s.add_string(name)) }
}

/// `r { a -> step1 -> $j; b -> step2 -> $j; $j -> step3 -> <>; }`
fn two_into_one(s: &mut State) -> Recipe {
    let a = ingredient(s, "a");
    let b = ingredient(s, "b");
    let r1 = Rule {
        input: Input::Ingredients { list: vec![a] },
        actions: vec![step(s, "step1"), join(s, "j")],
    };
    let r2 = Rule {
        input: Input::Ingredients { list: vec![b] },
        actions: vec![step(s, "step2"), join(s, "j")],
    };
    let j = at(s.add_string("j"));
    let r3 = Rule { input: Input::Join { point: j }, actions: vec![step(s, "step3"), Action::Done] };
    let name = at(s.add_string("r"));
    let rules = vec![s.add_rule(r1), s.add_rule(r2), s.add_rule(r3)];
    Recipe { name, rules }
}

fn step_name(s: &State, st: &ActionStep) -> String {
    s.text(st.action.value)
}

#[test]
fn join_scenario_analysis() {
    let mut s = State::new();
    let recipe = two_into_one(&mut s);
    let a = Analysis::from_recipe(&s, &recipe);
    assert!(a.problems().is_empty());
    let map = a.map();
    assert_eq!(map.len(), 2);
    let j = s.add_string("j");
    assert_eq!(map[0].key, Some(j));
    assert_eq!(map[0].paths.len(), 2);
    assert_eq!(map[0].paths[0].actions.len(), 1);
    assert_eq!(step_name(&s, &map[0].paths[0].actions[0]), "step1");
    assert!(matches!(&map[0].paths[0].start, Input::Ingredients { list } if list.len() == 1));
    assert_eq!(step_name(&s, &map[0].paths[1].actions[0]), "step2");
    assert_eq!(map[1].key, None);
    assert_eq!(map[1].paths.len(), 1);
    assert_eq!(step_name(&s, &map[1].paths[0].actions[0]), "step3");
    assert!(matches!(&map[1].paths[0].start, Input::Join { point } if point.value == j));
}

#[test]
fn join_scenario_tree() {
    let mut s = State::new();
    let recipe = two_into_one(&mut s);
    let a = Analysis::from_recipe(&s, &recipe);
    assert!(a.counts_fit());
    let t = a.into_tree().unwrap();
    assert_eq!(t.size, 2);
    assert_eq!(t.max_depth, 2);
    assert!(t.actions.is_empty() && t.ingredients.is_empty());
    assert_eq!(t.paths.len(), 1);
    let mid = &t.paths[0];
    assert_eq!(mid.size, 2);
    assert_eq!(mid.max_depth, 2);
    assert_eq!(step_name(&s, &mid.actions[0]), "step3");
    assert_eq!(mid.paths.len(), 2);
    for (leaf, (ing, act)) in mid.paths.iter().zip([("a", "step1"), ("b", "step2")]) {
        assert_eq!(leaf.size, 1);
        assert_eq!(leaf.max_depth, 1);
        assert!(leaf.paths.is_empty());
        assert_eq!(leaf.ingredients.len(), 1);
        let i = s.ingredient(leaf.ingredients[0]).unwrap();
        assert_eq!(s.text(i.stuff.value), ing);
        assert_eq!(step_name(&s, &leaf.actions[0]), act);
    }
}

#[test]
fn join_scenario_grid() {
    let mut s = State::new();
    let recipe = two_into_one(&mut s);
    let t = Analysis::from_recipe(&s, &recipe).into_tree().unwrap();
    assert!(t.can_lay_out());
    let table = Table::new(&s, &t);
    let rows = table.rows();
    assert_eq!(rows.len(), 2);
    let spans: Vec<Vec<(usize, usize)>> =
        rows.iter().map(|r| r.iter().map(|c| (c.colspan, c.rowspan)).collect()).collect();
    assert_eq!(spans, vec![vec![(1, 1), (1, 1), (1, 2), (1, 2)], vec![(1, 1), (1, 1)]]);
    assert!(matches!(&rows[0][2].contents, CellData::Step { step } if s.text(step.action.value) == "step3"));
    assert!(matches!(rows[0][3].contents, CellData::Done));
    assert_eq!(
        table.debug(),
        " (1, 1, a) (1, 1, step1 & ) (1, 2, step3 & ) (1, 2, <>)\n (1, 1, b) (1, 1, step2 & )\n"
    );
}

#[test]
fn empty_recipe() {
    let mut s = State::new();
    let name = at(s.add_string("r"));
    let recipe = Recipe { name, rules: vec![] };
    let a = Analysis::from_recipe(&s, &recipe);
    assert!(a.map().is_empty());
    assert_eq!(a.problems().len(), 1);
    assert!(matches!(a.problems()[0], Problem::NoDone));
    let err = a.into_tree().unwrap_err();
    assert_eq!(err.len(), 1);
    assert!(matches!(err[0], Problem::NoDone));
}

#[test]
fn html_of_join_scenario() {
    let mut s = State::new();
    let recipe = two_into_one(&mut s);
    let t = Analysis::from_recipe(&s, &recipe).into_tree().unwrap();
    let table = Table::new(&s, &t);
    let html = table.html(&HTMLTableOptions::default());
    assert!(html.starts_with("<table>\n  <tr><td class=\"ingredient\" rowspan=\"1\" colspan=\"1\">a</td>"));
    assert!(html.contains("<td class=\"action\" rowspan=\"2\" colspan=\"1\">step3</td>"));
    assert!(html.contains("<td class=\"done\" rowspan=\"2\" colspan=\"1\"><></td>"));
    assert!(html.ends_with("</table\n"));
}

#[test]
fn empty_table_html() {
    let s = State::new();
    let t = apicius::checks::BackwardTree {
        actions: vec![],
        paths: vec![],
        ingredients: vec![],
        size: 0,
        max_depth: 0,
    };
    assert!(t.can_lay_out());
    let table = Table::new(&s, &t);
    assert_eq!(table.html(&HTMLTableOptions::default()), "<table>\n</table\n");
    assert_eq!(table.debug(), "");
}
