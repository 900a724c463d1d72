//! The recipe syntax tree and the store that owns its parts.

use vstd::prelude::*;
use string_interner::{DefaultSymbol, StringInterner};
use string_interner::Symbol as InternerSymbol;

verus! {

/// An interned string: the position of the string in the store's
/// interner, in the order the strings were first seen.
pub type Symbol = u32;

/// A value together with the half-open source span it was read from.
#[derive(Debug, Clone, Copy, PartialEq, Eq)]
pub struct Loc<T> {
    pub l: usize,
    pub r: usize,
    pub value: T,
}

pub type StringRef = Loc<Symbol>;

/// Ingredients are stored in a packed array, and rules refer to them by index.
#[derive(Debug, PartialEq, Eq, Clone, Copy)]
pub struct IngredientRef {
    idx: usize,
}

/// Rules are stored in a packed array, and recipes refer to them by index.
#[derive(Debug, PartialEq, Eq, Clone, Copy)]
pub struct RuleRef {
    idx: usize,
}

impl IngredientRef {
    pub closed spec fn id(self) -> nat {
        self.idx as nat
    }
}

impl RuleRef {
    pub closed spec fn id(self) -> nat {
        self.idx as nat
    }
}

/// A recipe as written is a name and a list of rules.
#[derive(Debug)]
pub struct Recipe {
    pub name: StringRef,
    pub rules: Vec<RuleRef>,
}

/// A rule starts from an input and goes through a sequence of actions.
#[derive(Debug)]
pub struct Rule {
    pub input: Input,
    pub actions: Vec<Action>,
}

/// One processing step, with the ingredients added at that step.
#[derive(Debug)]
pub struct ActionStep {
    pub action: StringRef,
    pub seasonings: Vec<IngredientRef>,
}

/// A step is a processing action, a join point, or the `<>` sink.
#[derive(Debug)]
pub enum Action {
    Action { step: ActionStep },
    Join { point: StringRef },
    Done,
}

/// The start of a rule: a list of ingredients or a join point.
#[derive(Debug)]
pub enum Input {
    Ingredients { list: Vec<IngredientRef> },
    Join { point: StringRef },
}

/// An optional amount and the name of the ingredient.
#[derive(Debug, Clone, Copy)]
pub struct Ingredient {
    pub amount: Option<StringRef>,
    pub stuff: StringRef,
}

/// The model of an `ActionStep`.
pub struct StepV {
    pub action: StringRef,
    pub seasonings: Seq<IngredientRef>,
}

/// The model of an `Input`.
pub enum InputV {
    Ingredients(Seq<IngredientRef>),
    Join(StringRef),
}

/// The model of an `Action`.
pub enum ActionV {
    Step(StepV),
    Join(StringRef),
    Done,
}

/// The model of a `Rule`.
pub struct RuleV {
    pub input: InputV,
    pub actions: Seq<ActionV>,
}

impl View for ActionStep {
    type V = StepV;

    open spec fn view(&self) -> StepV {
        StepV { action: self.action, seasonings: self.seasonings@ }
    }
}

impl View for Input {
    type V = InputV;

    open spec fn view(&self) -> InputV {
        match self {
            Input::Ingredients { list } => InputV::Ingredients(list@),
            Input::Join { point } => InputV::Join(*point),
        }
    }
}

impl View for Action {
    type V = ActionV;

    open spec fn view(&self) -> ActionV {
        match self {
            Action::Action { step } => ActionV::Step(step@),
            Action::Join { point } => ActionV::Join(*point),
            Action::Done => ActionV::Done,
        }
    }
}

impl View for Rule {
    type V = RuleV;

    open spec fn view(&self) -> RuleV {
        RuleV { input: self.input@, actions: self.actions@.map_values(|a: Action| a@) }
    }
}

impl Clone for ActionStep {
    fn clone(&self) -> (r: Self)
        ensures
            r@ == self@,
    {
        let seasonings = self.seasonings.clone();
        proof {
            assert(seasonings@ =~= self.seasonings@);
        }
        ActionStep { action: self.action, seasonings }
    }
}

impl Clone for Input {
    fn clone(&self) -> (r: Self)
        ensures
            r@ == self@,
    {
        match self {
            Input::Ingredients { list } => {
                let list = list.clone();
                proof {
                    assert(list@ =~= self->list@);
                }
                Input::Ingredients { list }
            },
            Input::Join { point } => Input::Join { point: *point },
        }
    }
}

/// The interner of the `string_interner` crate, with its default backend,
/// held opaque: its generic bounds name a trait of that crate.
#[verifier::external_body]
#[derive(Debug)]
pub struct Interner {
    inner: StringInterner,
}

/// What the store's interner holds: the string of each symbol, by index.
pub uninterp spec fn interned(strings: Interner) -> Seq<Seq<char>>;

/// Relies on `StringInterner::new`: a new interner holds no strings.
#[verifier::external_body]
fn new_interner() -> (r: Interner)
    ensures
        interned(r).len() == 0,
{
    Interner { inner: StringInterner::new() }
}

/// Relies on `StringInterner::get_or_intern` with the default string backend:
/// a string seen before gets its old symbol; a new one is appended and gets
/// the next index. It panics only once `u32::MAX` strings are held.
#[verifier::external_body]
fn intern(strings: &mut Interner, s: &str) -> (r: Symbol)
    requires
        interned(*old(strings)).len() < u32::MAX,
    ensures
        interned(*old(strings)).contains(s@) ==> interned(*final(strings)) == interned(*old(strings)),
        !interned(*old(strings)).contains(s@) ==> interned(*final(strings)) == interned(*old(strings)).push(s@),
        r < interned(*final(strings)).len(),
        interned(*final(strings))[r as int] == s@,
{
    strings.inner.get_or_intern(s).to_usize() as u32
}

/// Relies on `StringInterner::resolve` with the default string backend: the
/// string of an interned symbol, and `None` for an index that was never
/// handed out (the interner never holds more than `u32::MAX` strings).
#[verifier::external_body]
fn resolve(strings: &Interner, sym: Symbol) -> (r: Option<String>)
    ensures
        r is Some <==> sym < interned(*strings).len(),
        r is Some ==> r->0@ == interned(*strings)[sym as int],
{
    let s = DefaultSymbol::try_from_usize(sym as usize)?;
    let text = strings.inner.resolve(s)?;
    Some(text.to_string())
}

/// Relies on `StringInterner::len`: the number of distinct strings held,
/// which is the number of symbols handed out.
#[verifier::external_body]
fn interned_count(strings: &Interner) -> (r: usize)
    ensures
        r == interned(*strings).len(),
{
    strings.inner.len()
}

/// The packed arrays and the interner that hold the parts of a recipe.
#[derive(Debug)]
pub struct State {
    ingredients: Vec<Ingredient>,
    rules: Vec<Rule>,
    strings: Interner,
}

impl State {
    /// The ingredients added so far, in order.
    pub closed spec fn ingredient_list(&self) -> Seq<Ingredient> {
        self.ingredients@
    }

    /// The rules added so far, in order.
    pub closed spec fn rule_list(&self) -> Seq<RuleV> {
        self.rules@.map_values(|r: Rule| r@)
    }

    /// The interned strings, each at the index of its symbol.
    pub closed spec fn names(&self) -> Seq<Seq<char>> {
        interned(self.strings)
    }

    pub open spec fn has_rule(&self, r: RuleRef) -> bool {
        r.id() < self.rule_list().len()
    }

    pub open spec fn rule_view(&self, r: RuleRef) -> RuleV {
        self.rule_list()[r.id() as int]
    }

    pub open spec fn has_ingredient(&self, i: IngredientRef) -> bool {
        i.id() < self.ingredient_list().len()
    }

    /// Every rule of the recipe is held by this store.
    pub open spec fn holds_recipe(&self, recipe: &Recipe) -> bool {
        forall|i: int| 0 <= i < recipe.rules@.len() ==> self.has_rule(#[trigger] recipe.rules@[i])
    }

    /// The rules of a recipe, looked up in this store.
    pub open spec fn recipe_rules(&self, recipe: &Recipe) -> Seq<RuleV> {
        recipe.rules@.map_values(|r: RuleRef| self.rule_view(r))
    }

    /// Create a store with nothing in it.
    pub fn new() -> (s: State)
        ensures
            s.ingredient_list().len() == 0,
            s.rule_list().len() == 0,
            s.names().len() == 0,
            s.names().no_duplicates(),
    {
        let s = State { ingredients: Vec::new(), rules: Vec::new(), strings: new_interner() };
        proof {
            assert(s.rule_list() =~= Seq::<RuleV>::empty());
        }
        s
    }

    /// Pack an ingredient and return its index. Nothing is ever removed, so
    /// the reference stays valid.
    pub fn add_ingredient(&mut self, i: Ingredient) -> (r: IngredientRef)
        ensures
            final(self).ingredient_list() == old(self).ingredient_list().push(i),
            final(self).rule_list() == old(self).rule_list(),
            final(self).names() == old(self).names(),
            r.id() == old(self).ingredient_list().len(),
    {
        let idx = self.ingredients.len();
        self.ingredients.push(i);
        IngredientRef { idx }
    }

    /// Pack a rule and return its index. Nothing is ever removed, so the
    /// reference stays valid.
    pub fn add_rule(&mut self, r: Rule) -> (res: RuleRef)
        ensures
            final(self).rule_list() == old(self).rule_list().push(r@),
            final(self).ingredient_list() == old(self).ingredient_list(),
            final(self).names() == old(self).names(),
            res.id() == old(self).rule_list().len(),
    {
        let idx = self.rules.len();
        self.rules.push(r);
        proof {
            assert(self.rules@.map_values(|r: Rule| r@) =~= old(self).rules@.map_values(
                |r: Rule| r@,
            ).push(r@));
        }
        RuleRef { idx }
    }

    /// Intern a string, or find the symbol it was given before, so that
    /// names compare as integers.
    pub fn add_string(&mut self, s: &str) -> (r: Symbol)
        requires
            old(self).names().len() < u32::MAX,
        ensures
            old(self).names().contains(s@) ==> final(self).names() == old(self).names(),
            !old(self).names().contains(s@) ==> final(self).names() == old(self).names().push(s@),
            r < final(self).names().len(),
            final(self).names()[r as int] == s@,
            forall|i: int|
                0 <= i < old(self).names().len() ==> final(self).names()[i] == old(self).names()[i],
            old(self).names().no_duplicates() ==> final(self).names().no_duplicates(),
            final(self).ingredient_list() == old(self).ingredient_list(),
            final(self).rule_list() == old(self).rule_list(),
    {
        let r = intern(&mut self.strings, s);
        proof {
            let n0 = interned(old(self).strings);
            let n1 = interned(self.strings);
            if !n0.contains(s@) && n0.no_duplicates() {
                assert forall|i: int, j: int| 0 <= i < j < n1.len() implies n1[i] != n1[j] by {
                    if j == n0.len() {
                        assert(n1[i] == n0[i]);
                    } else {
                        assert(n1[i] == n0[i] && n1[j] == n0[j]);
                    }
                }
            }
        }
        r
    }

    /// How many strings have been interned.
    pub fn name_count(&self) -> (r: usize)
        ensures
            r == self.names().len(),
    {
        interned_count(&self.strings)
    }

    /// The rule that a reference designates.
    pub fn rule(&self, r: RuleRef) -> (res: &Rule)
        requires
            self.has_rule(r),
        ensures
            res@ == self.rule_view(r),
    {
        &self.rules[r.idx]
    }

    /// The ingredient that a reference designates, if this store holds it.
    pub fn ingredient(&self, i: IngredientRef) -> (res: Option<Ingredient>)
        ensures
            res is Some <==> self.has_ingredient(i),
            res is Some ==> res->0 == self.ingredient_list()[i.id() as int],
    {
        if i.idx < self.ingredients.len() {
            Some(self.ingredients[i.idx])
        } else {
            None
        }
    }

    /// The string of a symbol, if this store handed it out.
    pub fn name(&self, sym: Symbol) -> (res: Option<String>)
        ensures
            res is Some <==> sym < self.names().len(),
            res is Some ==> res->0@ == self.names()[sym as int],
    {
        resolve(&self.strings, sym)
    }
}

/// The text of a symbol in the store; a symbol that the store never handed
/// out reads as empty.
pub open spec fn name_text(st: &State, sym: Symbol) -> Seq<char> {
    if (sym as int) < st.names().len() {
        st.names()[sym as int]
    } else {
        Seq::empty()
    }
}

impl State {
    /// Every rule of the recipe is held by this store, as `from_recipe` needs.
    pub fn holds(&self, recipe: &Recipe) -> (r: bool)
        ensures
            r == self.holds_recipe(recipe),
    {
        let mut i: usize = 0;
        while i < recipe.rules.len()
            invariant
                0 <= i <= recipe.rules.len(),
                forall|j: int| 0 <= j < i ==> self.has_rule(#[trigger] recipe.rules@[j]),
            decreases recipe.rules.len() - i,
        {
            if recipe.rules[i].idx >= self.rules.len() {
                return false;
            }
            i += 1;
        }
        true
    }

    /// The text of a symbol, empty for one that this store never handed out.
    pub fn text(&self, sym: Symbol) -> (r: String)
        ensures
            r@ == name_text(self, sym),
    {
        match self.name(sym) {
            Some(s) => s,
            None => String::new(),
        }
    }
}

/// `[amount] name`, or the bare name.
pub open spec fn ingredient_text(st: &State, i: Ingredient) -> Seq<char> {
    match i.amount {
        Some(a) => "["@ + name_text(st, a.value) + "] "@ + name_text(st, i.stuff.value),
        None => name_text(st, i.stuff.value),
    }
}

/// The text of the ingredient that `r` designates, empty if the store does
/// not hold it.
pub open spec fn ref_text(st: &State, r: IngredientRef) -> Seq<char> {
    if st.has_ingredient(r) {
        ingredient_text(st, st.ingredient_list()[r.id() as int])
    } else {
        Seq::empty()
    }
}

/// The ingredients, separated by ` + `.
pub open spec fn ingredients_text(st: &State, l: Seq<IngredientRef>) -> Seq<char>
    decreases l.len(),
{
    if l.len() == 0 {
        Seq::empty()
    } else if l.len() == 1 {
        ref_text(st, l[0])
    } else {
        ingredients_text(st, l.drop_last()) + " + "@ + ref_text(st, l.last())
    }
}

pub open spec fn input_text(st: &State, i: InputV) -> Seq<char> {
    match i {
        InputV::Join(p) => name_text(st, p.value),
        InputV::Ingredients(l) => ingredients_text(st, l),
    }
}

/// A step's name, then ` & ` and its seasonings if it has any.
pub open spec fn step_text(st: &State, s: StepV) -> Seq<char> {
    if s.seasonings.len() == 0 {
        name_text(st, s.action.value)
    } else {
        name_text(st, s.action.value) + " & "@ + ingredients_text(st, s.seasonings)
    }
}

pub open spec fn action_text(st: &State, a: ActionV) -> Seq<char> {
    match a {
        ActionV::Step(s) => step_text(st, s),
        ActionV::Join(p) => name_text(st, p.value),
        ActionV::Done => "<>"@,
    }
}

/// Each action after ` -> `.
pub open spec fn actions_text(st: &State, acts: Seq<ActionV>) -> Seq<char>
    decreases acts.len(),
{
    if acts.len() == 0 {
        Seq::empty()
    } else {
        actions_text(st, acts.drop_last()) + " -> "@ + action_text(st, acts.last())
    }
}

/// One rule on a line of its own, as it is written.
pub open spec fn rule_text(st: &State, r: RuleV) -> Seq<char> {
    "  "@ + input_text(st, r.input) + actions_text(st, r.actions) + ";\n"@
}

pub open spec fn rules_text(st: &State, rules: Seq<RuleV>) -> Seq<char>
    decreases rules.len(),
{
    if rules.len() == 0 {
        Seq::empty()
    } else {
        rules_text(st, rules.drop_last()) + rule_text(st, rules.last())
    }
}

impl State {
    /// An ingredient as `[amount] name`.
    pub fn debug_ingredient(&self, i: &Ingredient) -> (r: String)
        ensures
            r@ == ingredient_text(self, *i),
    {
        match i.amount {
            Some(amt) => {
                let mut buf = String::new();
                buf.append("[");
                buf.append(self.text(amt.value).as_str());
                buf.append("] ");
                buf.append(self.text(i.stuff.value).as_str());
                buf
            },
            None => self.text(i.stuff.value),
        }
    }

    fn debug_ref(&self, r: IngredientRef) -> (s: String)
        ensures
            s@ == ref_text(self, r),
    {
        match self.ingredient(r) {
            Some(i) => self.debug_ingredient(&i),
            None => String::new(),
        }
    }

    /// Ingredients separated by ` + `.
    pub fn debug_ingredients(&self, list: &Vec<IngredientRef>) -> (r: String)
        ensures
            r@ == ingredients_text(self, list@),
    {
        let mut buf = String::new();
        let mut i: usize = 0;
        while i < list.len()
            invariant
                0 <= i <= list.len(),
                buf@ == ingredients_text(self, list@.take(i as int)),
            decreases list.len() - i,
        {
            proof {
                assert(list@.take(i + 1).drop_last() =~= list@.take(i as int));
                assert(list@.take(i + 1).last() == list@[i as int]);
            }
            if i > 0 {
                buf.append(" + ");
            } else {
                proof {
                    assert(buf@ =~= Seq::<char>::empty());
                }
            }
            buf.append(self.debug_ref(list[i]).as_str());
            proof {
                if i == 0 {
                    assert(buf@ =~= ingredients_text(self, list@.take(1)));
                }
            }
            i += 1;
        }
        proof {
            assert(list@.take(i as int) =~= list@);
        }
        buf
    }

    /// The start of a rule: a join point's name or the ingredients.
    pub fn debug_input(&self, i: &Input) -> (r: String)
        ensures
            r@ == input_text(self, i@),
    {
        match i {
            Input::Join { point } => self.text(point.value),
            Input::Ingredients { list } => self.debug_ingredients(list),
        }
    }

    /// A step, with its seasonings after ` & `.
    pub fn debug_action_step(&self, a: &ActionStep) -> (r: String)
        ensures
            r@ == step_text(self, a@),
    {
        let mut buf = self.text(a.action.value);
        if a.seasonings.len() > 0 {
            buf.append(" & ");
            buf.append(self.debug_ingredients(&a.seasonings).as_str());
        }
        buf
    }

    /// An action: a step, a join point's name, or `<>`.
    pub fn debug_action(&self, a: &Action) -> (r: String)
        ensures
            r@ == action_text(self, a@),
    {
        match a {
            Action::Action { step } => self.debug_action_step(step),
            Action::Join { point } => self.text(point.value),
            Action::Done => {
                let mut buf = String::new();
                buf.append("<>");
                buf
            },
        }
    }

    /// A recipe written back as source text.
    pub fn debug_recipe(&self, r: &Recipe) -> (s: String)
        requires
            self.holds_recipe(r),
        ensures
            s@ == name_text(self, r.name.value) + " {\n"@ + rules_text(self, self.recipe_rules(r))
                + "}\n"@,
    {
        let ghost rules = self.recipe_rules(r);
        let mut buf = self.text(r.name.value);
        buf.append(" {\n");
        let ghost head = buf@;
        proof {
            assert(rules.take(0) =~= Seq::<RuleV>::empty());
        }
        let mut k: usize = 0;
        while k < r.rules.len()
            invariant
                0 <= k <= r.rules.len(),
                self.holds_recipe(r),
                rules == self.recipe_rules(r),
                buf@ == head + rules_text(self, rules.take(k as int)),
            decreases r.rules.len() - k,
        {
            assert(self.has_rule(r.rules@[k as int]));
            let rule = self.rule(r.rules[k]);
            let ghost acts = rule@.actions;
            let ghost start = buf@;
            buf.append("  ");
            buf.append(self.debug_input(&rule.input).as_str());
            proof {
                assert(acts.take(0) =~= Seq::<ActionV>::empty());
            }
            let ghost mid = buf@;
            let mut j: usize = 0;
            while j < rule.actions.len()
                invariant
                    0 <= j <= rule.actions.len(),
                    acts == rule@.actions,
                    buf@ == mid + actions_text(self, acts.take(j as int)),
                decreases rule.actions.len() - j,
            {
                proof {
                    assert(acts.take(j + 1).drop_last() =~= acts.take(j as int));
                    assert(acts.take(j + 1).last() == rule.actions@[j as int]@);
                }
                buf.append(" -> ");
                buf.append(self.debug_action(&rule.actions[j]).as_str());
                proof {
                    assert(buf@ =~= mid + actions_text(self, acts.take(j + 1)));
                }
                j += 1;
            }
            buf.append(";\n");
            proof {
                assert(acts.take(j as int) =~= acts);
                assert(rules.take(k + 1).drop_last() =~= rules.take(k as int));
                assert(rules.take(k + 1).last() == rule@);
                assert(buf@ =~= head + rules_text(self, rules.take(k + 1)));
            }
            k += 1;
        }
        buf.append("}\n");
        proof {
            assert(rules.take(k as int) =~= rules);
        }
        buf
    }
}

impl Default for State {
    fn default() -> (s: State)
        ensures
            s.ingredient_list().len() == 0,
            s.rule_list().len() == 0,
            s.names().len() == 0,
            s.names().no_duplicates(),
    {
        State::new()
    }
}

impl Ingredient {
    /// The ingredient as `[amount] name`, with names from the store.
    pub fn debug(&self, state: &State) -> (r: String)
        ensures
            r@ == ingredient_text(state, *self),
    {
        state.debug_ingredient(self)
    }
}

impl ActionStep {
    /// The step's name, then ` & ` and its seasonings if it has any.
    pub fn debug(&self, state: &State) -> (r: String)
        ensures
            r@ == step_text(state, self@),
    {
        state.debug_action_step(self)
    }
}

/// `new` holds all that `old` held, and maybe more.
pub open spec fn grows(old: &State, new: &State) -> bool {
    &&& old.ingredient_list().len() <= new.ingredient_list().len()
    &&& new.ingredient_list().take(old.ingredient_list().len() as int) == old.ingredient_list()
    &&& old.rule_list().len() <= new.rule_list().len()
    &&& new.rule_list().take(old.rule_list().len() as int) == old.rule_list()
    &&& old.names().len() <= new.names().len()
    &&& old.names().no_duplicates() ==> new.names().no_duplicates()
}

pub(crate) proof fn lemma_grows_trans(a: &State, b: &State, c: &State)
    requires
        grows(a, b),
        grows(b, c),
    ensures
        grows(a, c),
{
    assert(c.ingredient_list().take(a.ingredient_list().len() as int) =~= a.ingredient_list()) by {
        assert forall|i: int| 0 <= i < a.ingredient_list().len() implies c.ingredient_list()[i]
            == a.ingredient_list()[i] by {
            assert(c.ingredient_list().take(b.ingredient_list().len() as int)[i] == b.ingredient_list()[i]);
            assert(b.ingredient_list().take(a.ingredient_list().len() as int)[i] == a.ingredient_list()[i]);
        }
    }
    assert(c.rule_list().take(a.rule_list().len() as int) =~= a.rule_list()) by {
        assert forall|i: int| 0 <= i < a.rule_list().len() implies c.rule_list()[i]
            == a.rule_list()[i] by {
            assert(c.rule_list().take(b.rule_list().len() as int)[i] == b.rule_list()[i]);
            assert(b.rule_list().take(a.rule_list().len() as int)[i] == a.rule_list()[i]);
        }
    }
}

pub(crate) proof fn lemma_grows_refl(a: &State)
    ensures
        grows(a, a),
{
    assert(a.ingredient_list().take(a.ingredient_list().len() as int) =~= a.ingredient_list());
    assert(a.rule_list().take(a.rule_list().len() as int) =~= a.rule_list());
}

/// In a store whose names never repeat (every store built by `new` and
/// `add_string`), two symbols are equal exactly when their names are.
pub proof fn symbol_equality_is_name_equality(st: &State, x: Symbol, y: Symbol)
    requires
        st.names().no_duplicates(),
        (x as int) < st.names().len(),
        (y as int) < st.names().len(),
    ensures
        (x == y) <==> st.names()[x as int] == st.names()[y as int],
{
}

} // verus!
