//! The expression tree of boolean formulas, its renderer, and the
//! substitution + simplification engine together with the algebraic laws
//! that the engine obeys.

use vstd::prelude::*;

verus! {

/// A binary boolean connective: conjunction (`^`) or disjunction (`v`).
#[derive(Debug, PartialEq, Eq, Clone, Copy)]
pub enum Op {
    And,
    Or,
}

/// The symbol that rendering prints for a connective.
pub open spec fn op_symbol(op: Op) -> char {
    match op {
        Op::And => '^',
        Op::Or => 'v',
    }
}

impl Op {
    /// The textual symbol of the connective, as a one-character string.
    fn sym(&self) -> (s: String)
        ensures
            s@ == seq![op_symbol(*self)],
    {
        match self {
            Op::And => {
                let s = "^".to_owned();
                proof {
                    reveal_strlit("^");
                    assert(s@ =~= seq![op_symbol(Op::And)]);
                }
                s
            },
            Op::Or => {
                let s = "v".to_owned();
                proof {
                    reveal_strlit("v");
                    assert(s@ =~= seq![op_symbol(Op::Or)]);
                }
                s
            },
        }
    }
}

/// A boolean formula: an immutable finite tree of literals, single-letter
/// variables, negations and binary connectives. Equality is structural.
#[derive(Debug, PartialEq, Eq)]
pub enum Expr {
    Lit(bool),
    Var(char),
    Not(Box<Expr>),
    BinOp(Op, Box<Expr>, Box<Expr>),
}

impl Clone for Expr {
    /// Builds a structurally equal copy of the tree.
    fn clone(&self) -> (r: Self)
        ensures
            r == *self,
        decreases *self,
    {
        match self {
            Expr::Lit(b) => Expr::Lit(*b),
            Expr::Var(c) => Expr::Var(*c),
            Expr::Not(inner) => Expr::Not(Box::new((&**inner).clone())),
            Expr::BinOp(op, l, r) => Expr::BinOp(
                *op,
                Box::new((&**l).clone()),
                Box::new((&**r).clone()),
            ),
        }
    }
}

/// A tree is well formed when every variable is named by a lowercase letter.
pub open spec fn wf_expr(e: Expr) -> bool
    decreases e,
{
    match e {
        Expr::Lit(_) => true,
        Expr::Var(c) => 'a' <= c && c <= 'z',
        Expr::Not(inner) => wf_expr(*inner),
        Expr::BinOp(_, l, r) => wf_expr(*l) && wf_expr(*r),
    }
}

/// The canonical fully-parenthesized text of a tree: `T` and `F` for
/// literals, the variable's own letter, `¬( .. )` for a negation, and
/// `( .. op .. )` for a binary connective. No brackets are ever elided.
pub open spec fn render_spec(e: Expr) -> Seq<char>
    decreases e,
{
    match e {
        Expr::Lit(b) => if b {
            seq!['T']
        } else {
            seq!['F']
        },
        Expr::Var(c) => seq![c],
        Expr::Not(inner) => seq!['¬', '('] + render_spec(*inner) + seq![')'],
        Expr::BinOp(op, l, r) => seq!['('] + render_spec(*l) + seq![' ', op_symbol(op), ' ']
            + render_spec(*r) + seq![')'],
    }
}

/// Relies on `String::push`: appends the given character at the end of the
/// string, so the new contents are the old contents followed by that one
/// character.
#[verifier::external_body]
fn push_char(s: &mut String, c: char)
    ensures
        final(s)@ == old(s)@.push(c),
{
    s.push(c)
}

impl Expr {
    /// Renders the tree in its canonical fully-parenthesized textual form.
    pub fn render(&self) -> (s: String)
        ensures
            s@ == render_spec(*self),
        decreases *self,
    {
        match self {
            Expr::Lit(b) => {
                if *b {
                    let s = "T".to_owned();
                    proof {
                        reveal_strlit("T");
                        assert(s@ =~= render_spec(*self));
                    }
                    s
                } else {
                    let s = "F".to_owned();
                    proof {
                        reveal_strlit("F");
                        assert(s@ =~= render_spec(*self));
                    }
                    s
                }
            },
            Expr::Var(c) => {
                let mut s = String::new();
                push_char(&mut s, *c);
                proof {
                    assert(s@ =~= render_spec(*self));
                }
                s
            },
            Expr::Not(inner) => {
                let body = (&**inner).render();
                let mut s = "¬(".to_owned();
                s.append(body.as_str());
                s.append(")");
                proof {
                    reveal_strlit("¬(");
                    reveal_strlit(")");
                    assert(s@ =~= render_spec(*self));
                }
                s
            },
            Expr::BinOp(op, l, r) => {
                let left = (&**l).render();
                let right = (&**r).render();
                let symbol = op.sym();
                let mut s = "(".to_owned();
                s.append(left.as_str());
                s.append(" ");
                s.append(symbol.as_str());
                s.append(" ");
                s.append(right.as_str());
                s.append(")");
                proof {
                    reveal_strlit("(");
                    reveal_strlit(" ");
                    reveal_strlit(")");
                    assert(s@ =~= render_spec(*self));
                }
                s
            },
        }
    }
}

/// The simplified form of a conjunction whose two sides are already
/// simplified: `F` absorbs, `T` is the identity, and otherwise the node is
/// rebuilt unchanged.
pub open spec fn apply_and(v1: Expr, v2: Expr) -> Expr {
    if v1 == Expr::Lit(false) || v2 == Expr::Lit(false) {
        Expr::Lit(false)
    } else if v1 == Expr::Lit(true) {
        v2
    } else if v2 == Expr::Lit(true) {
        v1
    } else {
        Expr::BinOp(Op::And, Box::new(v1), Box::new(v2))
    }
}

/// The simplified form of a disjunction whose two sides are already
/// simplified: `T` absorbs, `F` is the identity, and otherwise the node is
/// rebuilt unchanged.
pub open spec fn apply_or(v1: Expr, v2: Expr) -> Expr {
    if v1 == Expr::Lit(true) || v2 == Expr::Lit(true) {
        Expr::Lit(true)
    } else if v1 == Expr::Lit(false) {
        v2
    } else if v2 == Expr::Lit(false) {
        v1
    } else {
        Expr::BinOp(Op::Or, Box::new(v1), Box::new(v2))
    }
}

/// Algebraic reduction of a tree: literals and variables are fixed points,
/// a negation of a literal collapses, and a binary connective is reduced by
/// the absorption and identity laws after both sides are fully simplified.
pub open spec fn simplify(e: Expr) -> Expr
    decreases e,
{
    match e {
        Expr::Lit(_) => e,
        Expr::Var(_) => e,
        Expr::Not(inner) => {
            let v = simplify(*inner);
            match v {
                Expr::Lit(b) => Expr::Lit(!b),
                _ => Expr::Not(Box::new(v)),
            }
        },
        Expr::BinOp(op, l, r) => {
            let v1 = simplify(*l);
            let v2 = simplify(*r);
            match op {
                Op::And => apply_and(v1, v2),
                Op::Or => apply_or(v1, v2),
            }
        },
    }
}

/// Rebuilds the tree with every variable that the assignment binds replaced
/// by the literal it is bound to; unbound variables pass through unchanged.
pub open spec fn subst(e: Expr, m: Map<char, bool>) -> Expr
    decreases e,
{
    match e {
        Expr::Lit(_) => e,
        Expr::Var(c) => if m.dom().contains(c) {
            Expr::Lit(m[c])
        } else {
            e
        },
        Expr::Not(inner) => Expr::Not(Box::new(subst(*inner, m))),
        Expr::BinOp(op, l, r) => Expr::BinOp(op, Box::new(subst(*l, m)), Box::new(subst(*r, m))),
    }
}

/// What evaluation under an assignment returns: substitution first, then
/// simplification.
pub open spec fn eval_spec(e: Expr, m: Map<char, bool>) -> Expr {
    simplify(subst(e, m))
}

/// Reduces a tree using the short-circuit identities, without consulting any
/// assignment: the executable form of [`simplify`].
pub fn evaluate(e: Expr) -> (r: Expr)
    ensures
        r == simplify(e),
    decreases e,
{
    match e {
        Expr::Lit(_) => e,
        Expr::Var(_) => e,
        Expr::Not(inner) => {
            let v = evaluate(*inner);
            match v {
                Expr::Lit(b) => Expr::Lit(!b),
                _ => Expr::Not(Box::new(v)),
            }
        },
        Expr::BinOp(op, l, r) => {
            let v1 = evaluate(*l);
            let v2 = evaluate(*r);
            match op {
                Op::And => {
                    match (v1, v2) {
                        (Expr::Lit(b1), w2) => {
                            if !b1 {
                                Expr::Lit(false)
                            } else {
                                w2
                            }
                        },
                        (w1, Expr::Lit(b2)) => {
                            if !b2 {
                                Expr::Lit(false)
                            } else {
                                w1
                            }
                        },
                        (w1, w2) => Expr::BinOp(Op::And, Box::new(w1), Box::new(w2)),
                    }
                },
                Op::Or => {
                    match (v1, v2) {
                        (Expr::Lit(b1), w2) => {
                            if b1 {
                                Expr::Lit(true)
                            } else {
                                w2
                            }
                        },
                        (w1, Expr::Lit(b2)) => {
                            if b2 {
                                Expr::Lit(true)
                            } else {
                                w1
                            }
                        },
                        (w1, w2) => Expr::BinOp(Op::Or, Box::new(w1), Box::new(w2)),
                    }
                },
            }
        },
    }
}

/// The mapping that a sequence of key-value entries stands for, later
/// entries taking precedence.
pub open spec fn map_of(entries: Seq<(char, bool)>) -> Map<char, bool>
    decreases entries.len(),
{
    if entries.len() == 0 {
        Map::empty()
    } else {
        map_of(entries.drop_last()).insert(entries.last().0, entries.last().1)
    }
}

/// No two entries share a key.
pub open spec fn unique_keys(entries: Seq<(char, bool)>) -> bool {
    forall|i: int, j: int|
        0 <= i < j < entries.len() ==> (#[trigger] entries[i]).0 != (#[trigger] entries[j]).0
}

/// How a sequence of entries with pairwise distinct keys relates to the
/// mapping it stands for: its keys are exactly the mapping's finite domain,
/// each entry gives its key's value, and the entry count is the domain size.
proof fn lemma_map_of_props(entries: Seq<(char, bool)>)
    requires
        unique_keys(entries),
    ensures
        forall|k: char|
            #[trigger] map_of(entries).dom().contains(k) <==> (exists|i: int|
                0 <= i < entries.len() && (#[trigger] entries[i]).0 == k),
        forall|i: int|
            0 <= i < entries.len() ==> map_of(entries).dom().contains(
                (#[trigger] entries[i]).0,
            ) && map_of(entries)[entries[i].0] == entries[i].1,
        map_of(entries).dom().finite(),
        map_of(entries).dom().len() == entries.len(),
    decreases entries.len(),
{
    if entries.len() > 0 {
        let prefix = entries.drop_last();
        lemma_map_of_props(prefix);
        let lk = entries.last().0;
        assert(forall|i: int|
            0 <= i < prefix.len() ==> #[trigger] prefix[i] == entries[i]);
        assert(!map_of(prefix).dom().contains(lk));
        assert forall|i: int| 0 <= i < entries.len() implies map_of(entries).dom().contains(
            (#[trigger] entries[i]).0,
        ) && map_of(entries)[entries[i].0] == entries[i].1 by {
            if i < entries.len() - 1 {
                assert(entries[i] == prefix[i]);
                assert(entries[i].0 != lk);
            }
        }
    }
}

/// Overwriting the entry that holds a key updates the mapping at that key
/// and keeps the keys distinct.
proof fn lemma_map_of_update(entries: Seq<(char, bool)>, i: int, k: char, v: bool)
    requires
        unique_keys(entries),
        0 <= i < entries.len(),
        entries[i].0 == k,
    ensures
        map_of(entries.update(i, (k, v))) == map_of(entries).insert(k, v),
        unique_keys(entries.update(i, (k, v))),
    decreases entries.len(),
{
    let updated = entries.update(i, (k, v));
    assert(unique_keys(updated));
    if i == entries.len() - 1 {
        assert(updated.drop_last() =~= entries.drop_last());
        assert(map_of(updated) =~= map_of(entries).insert(k, v));
    } else {
        let prefix = entries.drop_last();
        lemma_map_of_update(prefix, i, k, v);
        assert(updated.drop_last() =~= prefix.update(i, (k, v)));
        let lk = entries.last().0;
        let lv = entries.last().1;
        assert(updated.last() == entries.last());
        assert(map_of(updated) == map_of(prefix).insert(k, v).insert(lk, lv));
        assert(lk != k);
        assert(map_of(prefix).insert(k, v).insert(lk, lv) =~= map_of(prefix).insert(
            lk,
            lv,
        ).insert(k, v));
    }
}

/// Appending an entry with a fresh key inserts it into the mapping and keeps
/// the keys distinct.
proof fn lemma_map_of_push(entries: Seq<(char, bool)>, k: char, v: bool)
    requires
        unique_keys(entries),
        forall|j: int| 0 <= j < entries.len() ==> (#[trigger] entries[j]).0 != k,
    ensures
        map_of(entries.push((k, v))) == map_of(entries).insert(k, v),
        unique_keys(entries.push((k, v))),
{
    let pushed = entries.push((k, v));
    assert(pushed.drop_last() =~= entries);
    assert(pushed.last() == (k, v));
    assert(unique_keys(pushed));
}

/// The index of the entry holding a key, if there is one.
fn find_key(entries: &Vec<(char, bool)>, key: char) -> (r: Option<usize>)
    ensures
        match r {
            Some(i) => i < entries@.len() && entries@[i as int].0 == key,
            None => forall|j: int| 0 <= j < entries@.len() ==> (#[trigger] entries@[j]).0 != key,
        },
{
    let mut i: usize = 0;
    while i < entries.len()
        invariant
            i <= entries@.len(),
            forall|j: int| 0 <= j < i ==> (#[trigger] entries@[j]).0 != key,
        decreases entries@.len() - i,
    {
        if entries[i].0 == key {
            return Some(i);
        }
        i = i + 1;
    }
    None
}

/// A variable assignment: a mapping from single-letter variable names to
/// truth values, with each name bound at most once.
pub struct Context {
    entries: Vec<(char, bool)>,
}

impl View for Context {
    type V = Map<char, bool>;

    closed spec fn view(&self) -> Map<char, bool> {
        map_of(self.entries@)
    }
}

impl Context {
    #[verifier::type_invariant]
    spec fn wf(self) -> bool {
        unique_keys(self.entries@)
    }

    /// An assignment that binds nothing.
    pub fn new() -> (c: Context)
        ensures
            c@ == Map::<char, bool>::empty(),
    {
        Context { entries: Vec::new() }
    }

    /// Binds a variable to a value, returning the value it was bound to
    /// before, if any.
    pub fn insert(&mut self, key: char, value: bool) -> (r: Option<bool>)
        ensures
            final(self)@ == old(self)@.insert(key, value),
            r == (if old(self)@.dom().contains(key) {
                Some(old(self)@[key])
            } else {
                None::<bool>
            }),
    {
        proof {
            use_type_invariant(&*self);
            lemma_map_of_props(self.entries@);
        }
        let mut v: Vec<(char, bool)> = Vec::new();
        std::mem::swap(&mut v, &mut self.entries);
        let ghost s0 = v@;
        let r: Option<bool>;
        match find_key(&v, key) {
            Some(i) => {
                r = Some(v[i].1);
                v.set(i, (key, value));
                proof {
                    lemma_map_of_update(s0, i as int, key, value);
                }
            },
            None => {
                r = None;
                v.push((key, value));
                proof {
                    lemma_map_of_push(s0, key, value);
                }
            },
        }
        self.entries = v;
        r
    }

    /// The value a variable is bound to, if any.
    pub fn get(&self, key: char) -> (r: Option<bool>)
        ensures
            r == (if self@.dom().contains(key) {
                Some(self@[key])
            } else {
                None::<bool>
            }),
    {
        proof {
            use_type_invariant(self);
            lemma_map_of_props(self.entries@);
        }
        match find_key(&self.entries, key) {
            Some(i) => Some(self.entries[i].1),
            None => None,
        }
    }

    /// How many variables are bound.
    pub fn len(&self) -> (n: usize)
        ensures
            n as nat == self@.dom().len(),
    {
        proof {
            use_type_invariant(self);
            lemma_map_of_props(self.entries@);
        }
        self.entries.len()
    }

    /// The bound variable names, each exactly once.
    pub fn keys(&self) -> (r: Vec<char>)
        ensures
            forall|k: char| #[trigger] r@.contains(k) <==> self@.dom().contains(k),
            r@.no_duplicates(),
            r@.len() == self@.dom().len(),
    {
        proof {
            use_type_invariant(self);
            lemma_map_of_props(self.entries@);
        }
        let mut r: Vec<char> = Vec::new();
        let mut i: usize = 0;
        while i < self.entries.len()
            invariant
                i <= self.entries@.len(),
                r@.len() == i,
                forall|j: int| 0 <= j < i ==> r@[j] == (#[trigger] self.entries@[j]).0,
            decreases self.entries@.len() - i,
        {
            let name = self.entries[i].0;
            r.push(name);
            i = i + 1;
        }
        proof {
            use_type_invariant(self);
            lemma_map_of_props(self.entries@);
            assert forall|k: char| #[trigger] r@.contains(k) implies self@.dom().contains(k) by {
                let i0 = choose|i0: int| 0 <= i0 < r@.len() && r@[i0] == k;
                assert(self.entries@[i0].0 == k);
            }
            assert forall|k: char| self@.dom().contains(k) implies #[trigger] r@.contains(k) by {
                let i0 = choose|i0: int|
                    0 <= i0 < self.entries@.len() && (#[trigger] self.entries@[i0]).0 == k;
                assert(r@[i0] == k);
            }
            assert forall|a: int, b: int|
                0 <= a < r@.len() && 0 <= b < r@.len() && a != b implies r@[a] != r@[b] by {
                assert(r@[a] == self.entries@[a].0);
                assert(r@[b] == self.entries@[b].0);
            }
        }
        r
    }
}

/// Rebuilds the tree with every variable bound by the assignment replaced by
/// its literal: the executable form of [`subst`].
pub fn substitute(e: Expr, c: &Context) -> (r: Expr)
    ensures
        r == subst(e, c@),
    decreases e,
{
    match e {
        Expr::Lit(_) => e,
        Expr::Var(n) => {
            match c.get(n) {
                Some(b) => Expr::Lit(b),
                None => Expr::Var(n),
            }
        },
        Expr::Not(inner) => Expr::Not(Box::new(substitute(*inner, c))),
        Expr::BinOp(op, l, r) => Expr::BinOp(
            op,
            Box::new(substitute(*l, c)),
            Box::new(substitute(*r, c)),
        ),
    }
}

/// Evaluates expression trees under a variable assignment that it owns.
pub struct Evaluator {
    pub context: Context,
}

impl Evaluator {
    /// Constructs a new evaluator with an empty assignment.
    pub fn new() -> (ev: Evaluator)
        ensures
            ev.context@ == Map::<char, bool>::empty(),
    {
        Evaluator { context: Context::new() }
    }

    /// Binds a variable to a value within the evaluator's assignment,
    /// returning whether the variable was already bound.
    pub fn update_var(&mut self, var: char, val: bool) -> (r: bool)
        ensures
            final(self).context@ == old(self).context@.insert(var, val),
            r == old(self).context@.dom().contains(var),
    {
        match self.context.insert(var, val) {
            Some(_) => true,
            None => false,
        }
    }

    /// Counts how many variables are bound.
    pub fn count_vars(&self) -> (n: usize)
        ensures
            n as nat == self.context@.dom().len(),
    {
        self.context.len()
    }

    /// The names of the bound variables, each exactly once.
    pub fn get_vars(&self) -> (r: Vec<char>)
        ensures
            forall|k: char| #[trigger] r@.contains(k) <==> self.context@.dom().contains(k),
            r@.no_duplicates(),
            r@.len() == self.context@.dom().len(),
    {
        self.context.keys()
    }

    /// Evaluates the given expression under the evaluator's assignment:
    /// bound variables are substituted, then the tree is simplified.
    pub fn evaluate(&self, e: Expr) -> (r: Expr)
        ensures
            r == eval_spec(e, self.context@),
    {
        let substituted = substitute(e, &self.context);
        evaluate(substituted)
    }
}

/// A tree on which simplification has nothing left to do: no negation of a
/// literal, and no binary connective with a literal side.
pub open spec fn reduced(e: Expr) -> bool
    decreases e,
{
    match e {
        Expr::Lit(_) => true,
        Expr::Var(_) => true,
        Expr::Not(inner) => reduced(*inner) && !(*inner is Lit),
        Expr::BinOp(_, l, r) => reduced(*l) && reduced(*r) && !(*l is Lit) && !(*r is Lit),
    }
}

/// Simplification always lands on a reduced tree.
proof fn lemma_simplify_reduced(e: Expr)
    ensures
        reduced(simplify(e)),
    decreases e,
{
    match e {
        Expr::Lit(_) => {},
        Expr::Var(_) => {},
        Expr::Not(inner) => {
            lemma_simplify_reduced(*inner);
        },
        Expr::BinOp(_, l, r) => {
            lemma_simplify_reduced(*l);
            lemma_simplify_reduced(*r);
        },
    }
}

/// A reduced tree is a fixed point of simplification.
proof fn lemma_reduced_fixed(e: Expr)
    requires
        reduced(e),
    ensures
        simplify(e) == e,
    decreases e,
{
    match e {
        Expr::Lit(_) => {},
        Expr::Var(_) => {},
        Expr::Not(inner) => {
            lemma_reduced_fixed(*inner);
        },
        Expr::BinOp(_, l, r) => {
            lemma_reduced_fixed(*l);
            lemma_reduced_fixed(*r);
        },
    }
}

/// Idempotence: simplifying an already simplified tree changes nothing, so
/// `simplify(simplify(e)) == simplify(e)` for every tree `e`.
pub proof fn lemma_simplify_idempotent(e: Expr)
    ensures
        simplify(simplify(e)) == simplify(e),
{
    lemma_simplify_reduced(e);
    lemma_reduced_fixed(simplify(e));
}

/// Substituting from an empty assignment changes nothing.
proof fn lemma_subst_empty(e: Expr)
    ensures
        subst(e, Map::<char, bool>::empty()) == e,
    decreases e,
{
    match e {
        Expr::Lit(_) => {},
        Expr::Var(_) => {},
        Expr::Not(inner) => {
            lemma_subst_empty(*inner);
        },
        Expr::BinOp(_, l, r) => {
            lemma_subst_empty(*l);
            lemma_subst_empty(*r);
        },
    }
}

/// Absorption: under the empty assignment, `F ^ e` evaluates to `F` and
/// `T v e` evaluates to `T`, whatever the tree `e`.
pub proof fn lemma_absorption(e: Expr)
    ensures
        eval_spec(
            Expr::BinOp(Op::And, Box::new(Expr::Lit(false)), Box::new(e)),
            Map::<char, bool>::empty(),
        ) == Expr::Lit(false),
        eval_spec(
            Expr::BinOp(Op::Or, Box::new(Expr::Lit(true)), Box::new(e)),
            Map::<char, bool>::empty(),
        ) == Expr::Lit(true),
{
    reveal_with_fuel(subst, 2);
    reveal_with_fuel(simplify, 2);
    lemma_subst_empty(e);
}

/// Identity: under the empty assignment, `T ^ e` and `F v e` both evaluate
/// to the simplified form of `e`, whatever the tree `e`.
pub proof fn lemma_identity(e: Expr)
    ensures
        eval_spec(
            Expr::BinOp(Op::And, Box::new(Expr::Lit(true)), Box::new(e)),
            Map::<char, bool>::empty(),
        ) == simplify(e),
        eval_spec(
            Expr::BinOp(Op::Or, Box::new(Expr::Lit(false)), Box::new(e)),
            Map::<char, bool>::empty(),
        ) == simplify(e),
{
    reveal_with_fuel(subst, 2);
    reveal_with_fuel(simplify, 2);
    lemma_subst_empty(e);
}

/// Double negation: under the empty assignment, `--b` evaluates back to the
/// literal `b`.
pub proof fn lemma_double_negation(b: bool)
    ensures
        eval_spec(
            Expr::Not(Box::new(Expr::Not(Box::new(Expr::Lit(b))))),
            Map::<char, bool>::empty(),
        ) == Expr::Lit(b),
{
    reveal_with_fuel(subst, 3);
    reveal_with_fuel(simplify, 3);
}

/// Every variable name that occurs in the tree.
pub open spec fn expr_vars(e: Expr) -> Set<char>
    decreases e,
{
    match e {
        Expr::Lit(_) => Set::empty(),
        Expr::Var(c) => Set::empty().insert(c),
        Expr::Not(inner) => expr_vars(*inner),
        Expr::BinOp(_, l, r) => expr_vars(*l).union(expr_vars(*r)),
    }
}

/// A tree whose variables are all bound by the assignment evaluates to a
/// fully reduced literal.
pub proof fn lemma_full_assignment_gives_literal(e: Expr, m: Map<char, bool>)
    requires
        expr_vars(e).subset_of(m.dom()),
    ensures
        eval_spec(e, m) is Lit,
    decreases e,
{
    match e {
        Expr::Lit(_) => {},
        Expr::Var(c) => {
            assert(expr_vars(e).contains(c));
        },
        Expr::Not(inner) => {
            lemma_full_assignment_gives_literal(*inner, m);
        },
        Expr::BinOp(_, l, r) => {
            assert(expr_vars(*l).subset_of(expr_vars(e)));
            assert(expr_vars(*r).subset_of(expr_vars(e)));
            lemma_full_assignment_gives_literal(*l, m);
            lemma_full_assignment_gives_literal(*r, m);
        },
    }
}

} // verus!
