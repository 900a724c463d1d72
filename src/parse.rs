//! Reading a recipe from its source text:
//!
//! ```text
//! name {
//!   [1/2] onion + garlic -> chop -> saute & butter -> $mix;
//!   [2] eggs -> whisk -> $mix;
//!   $mix -> stir & salt -> <>;
//! }
//! ```
//!
//! A name is a run of text between the marks `{ } [ ] + & ; $ -> <>`,
//! without its surrounding spaces. A join point keeps its `$`.

use vstd::prelude::*;
use crate::types::{
    grows, lemma_grows_refl, lemma_grows_trans, Action, ActionStep, Ingredient, IngredientRef,
    Input, Loc, Recipe, Rule, RuleRef, State, StringRef,
};

verus! {

/// What the parser expected where it stopped.
#[derive(Debug, Clone, Copy, PartialEq, Eq)]
pub enum ParseErrorKind {
    Name,
    OpenBrace,
    CloseBracket,
    ArrowOrSemicolon,
    EndOfText,
    TooManyNames,
}

/// Where and why the text could not be read, as a character offset.
#[derive(Debug, Clone, Copy, PartialEq, Eq)]
pub struct ParseError {
    pub offset: usize,
    pub kind: ParseErrorKind,
}

pub open spec fn is_space(c: char) -> bool {
    c == ' ' || c == '\t' || c == '\n' || c == '\r'
}

/// A mark starts at position `i`.
pub open spec fn starts_mark(s: Seq<char>, i: int) -> bool {
    let c = s[i];
    ||| c == '{' || c == '}' || c == '[' || c == ']'
    ||| c == '+' || c == '&' || c == ';' || c == '$'
    ||| (c == '-' || c == '<') && i + 1 < s.len() && s[i + 1] == '>'
}

fn space(c: char) -> (r: bool)
    ensures
        r == is_space(c),
{
    c == ' ' || c == '\t' || c == '\n' || c == '\r'
}

fn mark_at(s: &Vec<char>, i: usize) -> (r: bool)
    requires
        i < s.len(),
    ensures
        r == starts_mark(s@, i as int),
{
    let c = s[i];
    if c == '{' || c == '}' || c == '[' || c == ']' || c == '+' || c == '&' || c == ';' || c
        == '$' {
        true
    } else {
        (c == '-' || c == '<') && i + 1 < s.len() && s[i + 1] == '>'
    }
}

fn char_at(s: &Vec<char>, i: usize, c: char) -> (r: bool)
    ensures
        r == (i < s.len() && s@[i as int] == c),
{
    i < s.len() && s[i] == c
}

fn skip_space(s: &Vec<char>, pos: usize) -> (r: usize)
    requires
        pos <= s.len(),
    ensures
        pos <= r <= s.len(),
{
    let mut p = pos;
    while p < s.len() && space(s[p])
        invariant
            pos <= p <= s.len(),
        decreases s.len() - p,
    {
        p += 1;
    }
    p
}

fn chars_of(text: &str) -> (r: Vec<char>)
    ensures
        r@ == text@,
{
    let n = text.unicode_len();
    let mut v: Vec<char> = Vec::new();
    let mut i: usize = 0;
    while i < n
        invariant
            0 <= i <= n,
            n == text@.len(),
            v@ == text@.take(i as int),
        decreases n - i,
    {
        v.push(text.get_char(i));
        proof {
            assert(text@.take(i + 1) =~= text@.take(i as int).push(text@[i as int]));
        }
        i += 1;
    }
    proof {
        assert(text@.take(n as int) =~= text@);
    }
    v
}

fn fail<T>(offset: usize, kind: ParseErrorKind) -> (r: Result<T, ParseError>)
    ensures
        r matches Err(e) && e.offset == offset && e.kind == kind,
{
    Err(ParseError { offset, kind })
}

/// Reads a name whose text starts at `begin`, looking for its end from
/// `scan` on, and interns it. Gives the name and where reading goes on.
fn word(state: &mut State, text: &str, s: &Vec<char>, begin: usize, scan: usize) -> (r: Result<
    (StringRef, usize),
    ParseError,
>)
    requires
        s@ == text@,
        begin <= scan <= s.len(),
    ensures
        grows(old(state), final(state)),
        final(state).rule_list() == old(state).rule_list(),
        r matches Ok((n, p)) ==> scan < p <= s.len() && (n.value as int) < final(state).names().len(),
        r matches Err(e) ==> e.offset <= s.len(),
{
    proof {
        lemma_grows_refl(old(state));
    }
    let mut end = scan;
    while end < s.len() && !mark_at(s, end)
        invariant
            scan <= end <= s.len(),
        decreases s.len() - end,
    {
        end += 1;
    }
    let mut last = end;
    while last > scan && space(s[last - 1])
        invariant
            scan <= last <= end,
            end <= s.len(),
        decreases last,
    {
        last -= 1;
    }
    if last == scan {
        return fail(scan, ParseErrorKind::Name);
    }
    if state.name_count() >= u32::MAX as usize {
        return fail(begin, ParseErrorKind::TooManyNames);
    }
    let value = state.add_string(text.substring_char(begin, last));
    proof {
        assert(state.ingredient_list().take(old(state).ingredient_list().len() as int)
            =~= old(state).ingredient_list());
        assert(state.rule_list().take(old(state).rule_list().len() as int) =~= old(state).rule_list());
    }
    Ok((Loc { l: begin, r: last, value }, end))
}

/// Reads a name after any spaces.
fn name(state: &mut State, text: &str, s: &Vec<char>, pos: usize) -> (r: Result<
    (StringRef, usize),
    ParseError,
>)
    requires
        s@ == text@,
        pos <= s.len(),
    ensures
        grows(old(state), final(state)),
        final(state).rule_list() == old(state).rule_list(),
        r matches Ok((_, p)) ==> pos < p <= s.len(),
        r matches Err(e) ==> e.offset <= s.len(),
{
    let b = skip_space(s, pos);
    word(state, text, s, b, b)
}

/// Reads `$name` after any spaces, the `$` being at `pos` or after spaces.
fn join_point(state: &mut State, text: &str, s: &Vec<char>, at: usize) -> (r: Result<
    (StringRef, usize),
    ParseError,
>)
    requires
        s@ == text@,
        at < s.len(),
    ensures
        grows(old(state), final(state)),
        final(state).rule_list() == old(state).rule_list(),
        r matches Ok((_, p)) ==> at < p <= s.len(),
        r matches Err(e) ==> e.offset <= s.len(),
{
    word(state, text, s, at, at + 1)
}

/// Reads `[amount] name` or `name`, and adds the ingredient to the store.
fn ingredient(state: &mut State, text: &str, s: &Vec<char>, pos: usize) -> (r: Result<
    (IngredientRef, usize),
    ParseError,
>)
    requires
        s@ == text@,
        pos <= s.len(),
    ensures
        grows(old(state), final(state)),
        final(state).rule_list() == old(state).rule_list(),
        r matches Ok((i, p)) ==> pos < p <= s.len() && final(state).has_ingredient(i),
        r matches Err(e) ==> e.offset <= s.len(),
{
    let ghost s0 = *old(state);
    let p = skip_space(s, pos);
    let mut amount: Option<StringRef> = None;
    let mut q = p;
    if char_at(s, p, '[') {
        match name(state, text, s, p + 1) {
            Ok((a, e)) => {
                let c = skip_space(s, e);
                if !char_at(s, c, ']') {
                    return fail(c, ParseErrorKind::CloseBracket);
                }
                amount = Some(a);
                q = c + 1;
            },
            Err(e) => {
                return Err(e);
            },
        }
    } else {
        proof {
            lemma_grows_refl(old(state));
        }
    }
    let ghost s1 = *state;
    match name(state, text, s, q) {
        Ok((stuff, e)) => {
            let ghost s2 = *state;
            let i = state.add_ingredient(Ingredient { amount, stuff });
            proof {
                assert(state.ingredient_list().take(s2.ingredient_list().len() as int)
                    =~= s2.ingredient_list());
                assert(state.rule_list().take(s2.rule_list().len() as int) =~= s2.rule_list());
                lemma_grows_trans(&s0, &s1, &s2);
                lemma_grows_trans(&s0, &s2, state);
            }
            Ok((i, e))
        },
        Err(e) => {
            proof {
                lemma_grows_trans(&s0, &s1, state);
            }
            Err(e)
        },
    }
}

/// Reads ingredients separated by `+`.
fn ingredients(state: &mut State, text: &str, s: &Vec<char>, pos: usize) -> (r: Result<
    (Vec<IngredientRef>, usize),
    ParseError,
>)
    requires
        s@ == text@,
        pos <= s.len(),
    ensures
        grows(old(state), final(state)),
        final(state).rule_list() == old(state).rule_list(),
        r matches Ok((_, p)) ==> pos < p <= s.len(),
        r matches Err(e) ==> e.offset <= s.len(),
{
    let ghost s0 = *old(state);
    proof {
        lemma_grows_refl(old(state));
    }
    let mut list: Vec<IngredientRef> = Vec::new();
    let mut p = pos;
    loop
        invariant
            s@ == text@,
            pos <= p <= s.len(),
            list@.len() > 0 ==> pos < p,
            grows(&s0, state),
            state.rule_list() == s0.rule_list(),
            s0 == *old(state),
        decreases s.len() - p,
    {
        let ghost s1 = *state;
        match ingredient(state, text, s, p) {
            Ok((i, e)) => {
                proof {
                    lemma_grows_trans(&s0, &s1, state);
                }
                list.push(i);
                let c = skip_space(s, e);
                if char_at(s, c, '+') {
                    p = c + 1;
                } else {
                    return Ok((list, e));
                }
            },
            Err(e) => {
                proof {
                    lemma_grows_trans(&s0, &s1, state);
                }
                return Err(e);
            },
        }
    }
}

/// Reads one action after `->`: `<>`, `$name`, or a step with its
/// seasonings after `&`.
fn action(state: &mut State, text: &str, s: &Vec<char>, pos: usize) -> (r: Result<
    (Action, usize),
    ParseError,
>)
    requires
        s@ == text@,
        pos <= s.len(),
    ensures
        grows(old(state), final(state)),
        final(state).rule_list() == old(state).rule_list(),
        r matches Ok((_, p)) ==> pos < p <= s.len(),
        r matches Err(e) ==> e.offset <= s.len(),
{
    let ghost s0 = *old(state);
    let p = skip_space(s, pos);
    if char_at(s, p, '<') && char_at(s, p + 1, '>') {
        proof {
            lemma_grows_refl(old(state));
        }
        return Ok((Action::Done, p + 2));
    }
    if char_at(s, p, '$') {
        return match join_point(state, text, s, p) {
            Ok((point, e)) => Ok((Action::Join { point }, e)),
            Err(e) => Err(e),
        };
    }
    match name(state, text, s, p) {
        Ok((a, e)) => {
            let c = skip_space(s, e);
            if char_at(s, c, '&') {
                let ghost s1 = *state;
                match ingredients(state, text, s, c + 1) {
                    Ok((seasonings, f)) => {
                        proof {
                            lemma_grows_trans(&s0, &s1, state);
                        }
                        Ok((Action::Action { step: ActionStep { action: a, seasonings } }, f))
                    },
                    Err(e) => {
                        proof {
                            lemma_grows_trans(&s0, &s1, state);
                        }
                        Err(e)
                    },
                }
            } else {
                Ok((Action::Action { step: ActionStep { action: a, seasonings: Vec::new() } }, e))
            }
        },
        Err(e) => Err(e),
    }
}

/// Reads one rule up to its `;` and adds it to the store.
fn rule(state: &mut State, text: &str, s: &Vec<char>, pos: usize) -> (r: Result<
    (RuleRef, usize),
    ParseError,
>)
    requires
        s@ == text@,
        pos <= s.len(),
    ensures
        grows(old(state), final(state)),
        r matches Ok((rr, p)) ==> pos < p <= s.len() && final(state).has_rule(rr) && rr.id()
            == final(state).rule_list().len() - 1 && final(state).rule_list().len()
            == old(state).rule_list().len() + 1,
        r matches Err(e) ==> e.offset <= s.len(),
{
    let ghost s0 = *old(state);
    let p = skip_space(s, pos);
    let input;
    let mut q;
    if char_at(s, p, '$') {
        match join_point(state, text, s, p) {
            Ok((point, e)) => {
                input = Input::Join { point };
                q = e;
            },
            Err(e) => {
                return Err(e);
            },
        }
    } else {
        match ingredients(state, text, s, p) {
            Ok((list, e)) => {
                input = Input::Ingredients { list };
                q = e;
            },
            Err(e) => {
                return Err(e);
            },
        }
    }
    let mut actions: Vec<Action> = Vec::new();
    loop
        invariant
            s@ == text@,
            pos < q <= s.len(),
            grows(&s0, state),
            state.rule_list() == s0.rule_list(),
            s0 == *old(state),
        decreases s.len() - q,
    {
        let c = skip_space(s, q);
        if char_at(s, c, ';') {
            q = c + 1;
            break;
        }
        if !(char_at(s, c, '-') && char_at(s, c + 1, '>')) {
            return fail(c, ParseErrorKind::ArrowOrSemicolon);
        }
        let ghost s1 = *state;
        match action(state, text, s, c + 2) {
            Ok((a, e)) => {
                proof {
                    lemma_grows_trans(&s0, &s1, state);
                }
                actions.push(a);
                q = e;
            },
            Err(e) => {
                proof {
                    lemma_grows_trans(&s0, &s1, state);
                }
                return Err(e);
            },
        }
    }
    let ghost s2 = *state;
    let rr = state.add_rule(Rule { input, actions });
    proof {
        assert(state.ingredient_list().take(s2.ingredient_list().len() as int)
            =~= s2.ingredient_list());
        assert(state.rule_list().take(s2.rule_list().len() as int) =~= s2.rule_list());
        lemma_grows_trans(&s0, &s2, state);
    }
    Ok((rr, q))
}

/// Reads a recipe, adding its names, ingredients and rules to the store.
/// On success the store holds every rule of the recipe.
pub fn parse_recipe(state: &mut State, text: &str) -> (r: Result<Recipe, ParseError>)
    ensures
        grows(old(state), final(state)),
        r matches Ok(rec) ==> final(state).holds_recipe(&rec) && final(state).recipe_rules(&rec)
            == final(state).rule_list().skip(old(state).rule_list().len() as int),
        r matches Err(e) ==> e.offset <= text@.len(),
{
    let ghost s0 = *old(state);
    let s = chars_of(text);
    let (recipe_name, p) = match name(state, text, &s, 0) {
        Ok(x) => x,
        Err(e) => {
            return Err(e);
        },
    };
    let c = skip_space(&s, p);
    if !char_at(&s, c, '{') {
        return fail(c, ParseErrorKind::OpenBrace);
    }
    let mut q = c + 1;
    let mut rules: Vec<RuleRef> = Vec::new();
    loop
        invariant
            s@ == text@,
            q <= s.len(),
            grows(&s0, state),
            s0 == *old(state),
            forall|i: int| 0 <= i < rules@.len() ==> state.has_rule(#[trigger] rules@[i]),
            forall|i: int|
                0 <= i < rules@.len() ==> (#[trigger] rules@[i]).id() == s0.rule_list().len() + i,
            rules@.len() == state.rule_list().len() - s0.rule_list().len(),
        decreases s.len() - q,
    {
        let c = skip_space(&s, q);
        if c >= s.len() {
            return fail(c, ParseErrorKind::EndOfText);
        }
        if char_at(&s, c, '}') {
            q = c + 1;
            break;
        }
        let ghost s1 = *state;
        match rule(state, text, &s, c) {
            Ok((rr, e)) => {
                proof {
                    lemma_grows_trans(&s0, &s1, state);
                }
                rules.push(rr);
                q = e;
            },
            Err(e) => {
                proof {
                    lemma_grows_trans(&s0, &s1, state);
                }
                return Err(e);
            },
        }
    }
    let end = skip_space(&s, q);
    if end != s.len() {
        return fail(end, ParseErrorKind::EndOfText);
    }
    let rec = Recipe { name: recipe_name, rules };
    proof {
        let n0 = s0.rule_list().len() as int;
        assert(state.recipe_rules(&rec) =~= state.rule_list().skip(n0));
    }
    Ok(rec)
}

} // verus!
