use apicius::checks::{Analysis, BackwardTree, Problem};
use apicius::render::table::{Cell, Table};
use apicius::types::{
    Action, ActionStep, Ingredient, IngredientRef, Input, Loc, Recipe, Rule, RuleRef, State,
    StringRef,
};

fn at(value: u32) -> StringRef {
    Loc { l: 0, r: 0, value }
}

fn ing(s: &mut State, name: &str) -> IngredientRef {
    let stuff = at(s.add_string(name));
    s.add_ingredient(Ingredient { amount: None, stuff })
}

fn step(s: &mut State, name: &str) -> Action {
    let action = at(s.add_string(name));
    Action::Action { step: ActionStep { action, seasonings: vec![] } }
}

fn to(s: &mut State, name: &str) -> Action {
    Action::Join { point: at(s.add_string(name)) }
}

fn from_join(s: &mut State, name: &str) -> Input {
    Input::Join { point: at(s.add_string(name)) }
}

fn from(list: Vec<IngredientRef>) -> Input {
    Input::Ingredients { list }
}

fn recipe(s: &mut State, rules: Vec<Rule>) -> Recipe {
    let name = at(s.add_string("r"));
    let rules: Vec<RuleRef> = rules.into_iter().map(|r| s.add_rule(r)).collect();
    Recipe { name, rules }
}

/// How many columns of each row the grid's cells cover.
fn coverage(rows: &Vec<Vec<Cell>>) -> Vec<usize> {
    (0..rows.len())
        .map(|r| {
            let mut total = 0;
            for (q, row) in rows.iter().enumerate().take(r + 1) {
                for c in row {
                    if q + c.rowspan > r {
                        total += c.colspan;
                    }
                }
            }
            total
        })
        .collect()
}

fn check_sizes(t: &BackwardTree) {
    if t.paths.is_empty() {
        assert_eq!(t.size, t.ingredients.len());
        assert_eq!(t.max_depth, t.actions.len());
    } else {
        assert_eq!(t.size, t.paths.iter().map(|c| c.size).sum::<usize>());
        let deepest = t.paths.iter().map(|c| c.max_depth).max().unwrap();
        assert_eq!(t.max_depth, t.actions.len() + deepest);
        for c in &t.paths {
            check_sizes(c);
        }
    }
}

/// Three branches of different lengths, one of them with two ingredients.
fn uneven(s: &mut State) -> Recipe {
    let a = ing(s, "a");
    let b = ing(s, "b");
    let c = ing(s, "c");
    let d = ing(s, "d");
    let r1 = Rule { input: from(vec![a]), actions: vec![step(s, "p"), step(s, "q"), to(s, "x")] };
    let r2 = Rule { input: from(vec![b, c]), actions: vec![to(s, "x")] };
    let r3 = Rule { input: from_join(s, "x"), actions: vec![step(s, "mix"), to(s, "y")] };
    let r4 = Rule { input: from(vec![d]), actions: vec![step(s, "cut"), to(s, "y")] };
    let r5 = Rule { input: from_join(s, "y"), actions: vec![step(s, "bake"), Action::Done] };
    recipe(s, vec![r1, r2, r3, r4, r5])
}

#[test]
fn single_path_gives_one_child() {
    let mut s = State::new();
    let a = ing(&mut s, "a");
    let b = ing(&mut s, "b");
    let r = Rule { input: from(vec![a, b]), actions: vec![step(&mut s, "chop"), Action::Done] };
    let rec = recipe(&mut s, vec![r]);
    let t = Analysis::from_recipe(&s, &rec).into_tree().unwrap();
    assert_eq!(t.paths.len(), 1);
    assert_eq!(t.paths[0].size, 2);
    assert_eq!(t.size, 2);
}

#[test]
fn missing_sink_gives_one_no_done() {
    let mut s = State::new();
    let a = ing(&mut s, "a");
    let r1 = Rule { input: from(vec![a]), actions: vec![step(&mut s, "s"), to(&mut s, "j")] };
    let r2 = Rule { input: from_join(&mut s, "j"), actions: vec![step(&mut s, "t")] };
    let rec = recipe(&mut s, vec![r1, r2]);
    let an = Analysis::from_recipe(&s, &rec);
    let no_done = an.problems().iter().filter(|p| matches!(p, Problem::NoDone)).count();
    assert_eq!(no_done, 1);
    assert!(matches!(an.problems().last(), Some(Problem::NoDone)));
    let err = an.into_tree().unwrap_err();
    assert!(err.iter().any(|p| matches!(p, Problem::NoDone)));
}

#[test]
fn dangling_chain_carries_trailing_steps() {
    let mut s = State::new();
    let a = ing(&mut s, "a");
    let b = ing(&mut s, "b");
    let r1 = Rule { input: from(vec![a]), actions: vec![step(&mut s, "x"), Action::Done] };
    let r2 = Rule {
        input: from(vec![b]),
        actions: vec![step(&mut s, "s1"), to(&mut s, "j"), step(&mut s, "s2"), step(&mut s, "s3")],
    };
    let rec = recipe(&mut s, vec![r1, r2]);
    let an = Analysis::from_recipe(&s, &rec);
    assert_eq!(an.problems().len(), 1);
    let j = s.add_string("j");
    match &an.problems()[0] {
        Problem::DanglingSteps(steps, Input::Join { point }) => {
            assert_eq!(point.value, j);
            let names: Vec<String> = steps.iter().map(|st| s.text(st.action.value)).collect();
            assert_eq!(names, vec!["s2", "s3"]);
        },
        other => panic!("unexpected problem {:?}", other),
    }
    assert!(an.into_tree().is_err());
}

#[test]
fn dangling_chain_from_ingredients() {
    let mut s = State::new();
    let a = ing(&mut s, "a");
    let b = ing(&mut s, "b");
    let r1 = Rule { input: from(vec![a]), actions: vec![step(&mut s, "x"), Action::Done] };
    let r2 = Rule { input: from(vec![b]), actions: vec![step(&mut s, "y")] };
    let rec = recipe(&mut s, vec![r1, r2]);
    let an = Analysis::from_recipe(&s, &rec);
    assert_eq!(an.problems().len(), 1);
    match &an.problems()[0] {
        Problem::DanglingSteps(steps, Input::Ingredients { list }) => {
            assert_eq!(list, &vec![b]);
            assert_eq!(steps.len(), 1);
            assert_eq!(s.text(steps[0].action.value), "y");
        },
        other => panic!("unexpected problem {:?}", other),
    }
    assert_eq!(
        an.debug_problems(&s),
        "graph problems:\n - path starting from ingredients list 'b' goes through actions 'y' but never reaches a join point\n"
    );
}

#[test]
fn cycle_is_reported() {
    let mut s = State::new();
    let r1 = Rule { input: from_join(&mut s, "k"), actions: vec![step(&mut s, "s"), to(&mut s, "j")] };
    let r2 = Rule { input: from_join(&mut s, "j"), actions: vec![step(&mut s, "t"), to(&mut s, "k")] };
    let r3 = Rule { input: from_join(&mut s, "j"), actions: vec![step(&mut s, "u"), Action::Done] };
    let rec = recipe(&mut s, vec![r1, r2, r3]);
    let an = Analysis::from_recipe(&s, &rec);
    let cycles: Vec<u32> = an
        .problems()
        .iter()
        .filter_map(|p| if let Problem::HasCycle(x) = p { Some(*x) } else { None })
        .collect();
    assert_eq!(cycles.len(), 1);
    assert!(an.into_tree().is_err());
}

#[test]
fn shared_join_point_is_reported() {
    let mut s = State::new();
    let a = ing(&mut s, "a");
    let r1 = Rule { input: from(vec![a]), actions: vec![step(&mut s, "s"), to(&mut s, "j")] };
    let r2 = Rule { input: from_join(&mut s, "j"), actions: vec![step(&mut s, "t"), to(&mut s, "k")] };
    let r3 = Rule { input: from_join(&mut s, "j"), actions: vec![step(&mut s, "u"), to(&mut s, "k")] };
    let r4 = Rule { input: from_join(&mut s, "k"), actions: vec![Action::Done] };
    let rec = recipe(&mut s, vec![r1, r2, r3, r4]);
    let an = Analysis::from_recipe(&s, &rec);
    let j = s.add_string("j");
    assert_eq!(an.problems().len(), 1);
    assert!(matches!(an.problems()[0], Problem::HasCycle(x) if x == j));
    assert_eq!(
        an.debug_problems(&s),
        "graph problems:\n - the join point 'j' is involved in a cycle\n"
    );
}

#[test]
fn layout_twice_is_identical() {
    let mut s = State::new();
    let rec = uneven(&mut s);
    let t = Analysis::from_recipe(&s, &rec).into_tree().unwrap();
    let one = Table::new(&s, &t).debug();
    let two = Table::new(&s, &t).debug();
    assert_eq!(one, two);
}

#[test]
fn every_row_covers_the_same_columns() {
    let mut s = State::new();
    let rec = uneven(&mut s);
    let t = Analysis::from_recipe(&s, &rec).into_tree().unwrap();
    assert_eq!(t.max_depth, 4);
    assert!(t.can_lay_out());
    let table = Table::new(&s, &t);
    let rows = table.rows();
    assert_eq!(rows.len(), 4);
    assert_eq!(coverage(rows), vec![t.max_depth + 2; 4]);
    // the two-ingredient leaf has no steps of its own, so each of its
    // ingredients takes every column up to `mix`
    assert_eq!(rows[1][0].colspan, 3);
    assert_eq!(rows[2][0].colspan, 3);
    assert_eq!(rows[3][0].colspan, 3);
}

#[test]
fn sizes_are_conserved() {
    let mut s = State::new();
    let rec = uneven(&mut s);
    let t = Analysis::from_recipe(&s, &rec).into_tree().unwrap();
    check_sizes(&t);
    assert_eq!(t.size, 4);
}

#[test]
fn unreached_join_point_is_left_out() {
    let mut s = State::new();
    let a = ing(&mut s, "a");
    let b = ing(&mut s, "b");
    let r1 = Rule { input: from(vec![a]), actions: vec![step(&mut s, "s"), to(&mut s, "lost")] };
    let r2 = Rule { input: from(vec![b]), actions: vec![step(&mut s, "t"), Action::Done] };
    let rec = recipe(&mut s, vec![r1, r2]);
    let an = Analysis::from_recipe(&s, &rec);
    assert!(an.problems().is_empty());
    let t = an.into_tree().unwrap();
    assert_eq!(t.size, 1);
}

#[test]
fn unknown_join_point_has_no_rows() {
    let mut s = State::new();
    let a = ing(&mut s, "a");
    let r1 = Rule { input: from_join(&mut s, "nowhere"), actions: vec![step(&mut s, "s"), Action::Done] };
    let r2 = Rule { input: from(vec![a]), actions: vec![step(&mut s, "t"), Action::Done] };
    let rec = recipe(&mut s, vec![r1, r2]);
    let t = Analysis::from_recipe(&s, &rec).into_tree().unwrap();
    assert_eq!(t.paths.len(), 2);
    assert_eq!(t.paths[0].size, 0);
    let table = Table::new(&s, &t);
    assert_eq!(table.rows().len(), 1);
    assert_eq!(coverage(table.rows()), vec![t.max_depth + 2]);
}
