//! The truth-table driver: variable discovery, enumeration of all boolean
//! assignments in a fixed bit order, per-character substitution, and one
//! evaluated row per assignment.

use vstd::prelude::*;
use vstd::arithmetic::power2::{lemma2_to64, lemma_pow2_strictly_increases, pow2};
use vstd::bits::lemma_u32_shl_is_mul;
use vstd::string::StrSliceExecFns;

use crate::ast::{
    build_all, classify_all, classify_char, eval_formula, eval_outcome, parse_formula, push_unit,
    Error, Unit, Value,
};
use crate::form::{evalc, evalf, ground, Form};
use crate::push_char;

verus! {

/// Strictly ascending by symbol, hence free of duplicates.
pub open spec fn sorted_strict(s: Seq<char>) -> bool {
    forall|p: int, q: int| 0 <= p < q < s.len() ==> s[p] < s[q]
}

/// `vs` is the ordered set of distinct variable symbols of `s`: exactly the
/// uppercase ASCII letters that occur in `s`, in ascending order.
pub open spec fn is_variables_of(vs: Seq<char>, s: Seq<char>) -> bool {
    &&& sorted_strict(vs)
    &&& forall|c: char| vs.contains(c) <==> (s.contains(c) && 'A' <= c <= 'Z')
}

/// A strictly ascending run of uppercase letters grows by at least one code
/// point per step.
proof fn lemma_sorted_lower(s: Seq<char>, p: int)
    requires
        sorted_strict(s),
        0 <= p < s.len(),
    ensures
        s[p] as int >= s[0] as int + p,
    decreases p,
{
    if p > 0 {
        lemma_sorted_lower(s, p - 1);
        assert(s[p - 1] < s[p]);
    }
}

/// There are only 26 uppercase letters, so an ascending run of them is short.
proof fn lemma_few_variables(s: Seq<char>)
    requires
        sorted_strict(s),
        forall|p: int| 0 <= p < s.len() ==> 'A' <= #[trigger] s[p] <= 'Z',
    ensures
        s.len() <= 26,
{
    if s.len() > 26 {
        lemma_sorted_lower(s, 26);
        assert('A' <= s[0]);
        assert(s[26] <= 'Z');
    }
}

/// Membership in a sequence after inserting one element.
proof fn lemma_insert_contains(s: Seq<char>, j: int, c: char, x: char)
    requires
        0 <= j <= s.len(),
    ensures
        s.insert(j, c).contains(x) <==> (s.contains(x) || x == c),
{
    let t = s.insert(j, c);
    s.insert_ensures(j, c);
    if x == c {
        assert(t[j] == x);
    } else if s.contains(x) {
        let w = choose|w: int| 0 <= w < s.len() && s[w] == x;
        if w < j {
            assert(t[w] == x);
        } else {
            assert(t[w + 1] == x);
        }
    }
    if t.contains(x) {
        let w = choose|w: int| 0 <= w < t.len() && t[w] == x;
        if w < j {
            assert(s[w] == x);
        } else if w > j {
            assert(s[w - 1] == x);
        }
    }
}

/// Variable discovery: the distinct uppercase letters of the formula, in
/// ascending order.
pub fn variables(formula: &str) -> (vars: Vec<char>)
    ensures
        is_variables_of(vars@, formula@),
        vars@.len() <= 26,
{
    let n = formula.unicode_len();
    let mut vars: Vec<char> = Vec::new();
    let mut i: usize = 0;
    while i < n
        invariant
            i <= n,
            n == formula@.len(),
            sorted_strict(vars@),
            forall|c: char|
                vars@.contains(c) <==> (formula@.subrange(0, i as int).contains(c) && 'A' <= c
                    <= 'Z'),
        decreases n - i,
    {
        let ghost prefix = formula@.subrange(0, i as int);
        proof {
            assert(formula@.subrange(0, i + 1).drop_last() =~= prefix);
            assert(formula@.subrange(0, i + 1).last() == formula@[i as int]);
            assert forall|c: char| #[trigger]
                formula@.subrange(0, i + 1).contains(c) <==> (prefix.contains(c) || formula@[
            i as int] == c) by {
                let ext = formula@.subrange(0, i + 1);
                if prefix.contains(c) {
                    let w = choose|w: int| 0 <= w < prefix.len() && prefix[w] == c;
                    assert(ext[w] == c);
                }
                if formula@[i as int] == c {
                    assert(ext[i as int] == c);
                }
                if ext.contains(c) {
                    let w = choose|w: int| 0 <= w < ext.len() && ext[w] == c;
                    if w < i {
                        assert(prefix[w] == c);
                    }
                }
            }
        }
        let c = formula.get_char(i);
        if 'A' <= c && c <= 'Z' {
            let ghost old_vars = vars@;
            let mut j: usize = 0;
            while j < vars.len() && vars[j] < c
                invariant
                    j <= vars@.len(),
                    vars@ == old_vars,
                    sorted_strict(vars@),
                    forall|p: int| 0 <= p < j ==> vars@[p] < c,
                decreases vars@.len() - j,
            {
                j = j + 1;
            }
            if j == vars.len() {
                vars.push(c);
                proof {
                    assert(vars@ =~= old_vars.insert(j as int, c));
                }
            } else if vars[j] != c {
                vars.insert(j, c);
            }
            proof {
                if !old_vars.contains(c) {
                    old_vars.insert_ensures(j as int, c);
                    assert forall|p: int, q: int|
                        0 <= p < q < vars@.len() implies vars@[p] < vars@[q] by {
                        if q < j {
                        } else if p >= j + 1 {
                            assert(vars@[p] == old_vars[p - 1]);
                            assert(vars@[q] == old_vars[q - 1]);
                        } else if q == j {
                            assert(vars@[p] == old_vars[p]);
                            assert(vars@[q] == c);
                        } else if p == j {
                            assert(vars@[q] == old_vars[q - 1]);
                            assert(old_vars[q - 1] >= c);
                            assert(c < old_vars[q - 1]);
                        } else {
                            assert(vars@[p] == old_vars[p]);
                            assert(vars@[q] == old_vars[q - 1]);
                            assert(old_vars[q - 1] >= c);
                        }
                    }
                    assert forall|x: char| #[trigger]
                        vars@.contains(x) <==> (old_vars.contains(x) || x == c) by {
                        lemma_insert_contains(old_vars, j as int, c, x);
                    }
                } else {
                    assert(vars@ == old_vars);
                }
            }
        }
        i = i + 1;
    }
    proof {
        assert(formula@.subrange(0, n as int) =~= formula@);
        assert forall|p: int| 0 <= p < vars@.len() implies 'A' <= #[trigger] vars@[p] <= 'Z' by {
            assert(vars@.contains(vars@[p]));
        }
        lemma_few_variables(vars@);
    }
    vars
}

/// Whether bit `j` of the row counter is set.
pub open spec fn bit_of(i: u32, j: u32) -> bool {
    (i >> j) & 1u32 == 1u32
}

/// The assignment of row `i` for `n` variables in ascending order: the
/// variable at position `k` takes bit `n - 1 - k` of the counter, so the
/// first-listed variable varies slowest across rows.
pub open spec fn row_values(n: nat, i: u32) -> Seq<bool> {
    Seq::new(n, |k: int| bit_of(i, (n - 1 - k) as u32))
}

/// Assignment enumeration: the boolean values of row `i`, in variable order.
pub fn row_values_vec(n_vars: usize, i: u32) -> (v: Vec<bool>)
    requires
        n_vars <= 32,
    ensures
        v@ == row_values(n_vars as nat, i),
{
    let mut v: Vec<bool> = Vec::new();
    let mut k: usize = 0;
    while k < n_vars
        invariant
            k <= n_vars,
            n_vars <= 32,
            v@.len() == k,
            forall|p: int| 0 <= p < k ==> v@[p] == bit_of(i, (n_vars - 1 - p) as u32),
        decreases n_vars - k,
    {
        let j = (n_vars - 1 - k) as u32;
        v.push((i >> j) & 1 == 1);
        k = k + 1;
    }
    proof {
        assert(v@ =~= row_values(n_vars as nat, i));
    }
    v
}

/// The substitution of one character: the first variable equal to `c` is
/// replaced by the literal of its value; everything else is left alone.
pub open spec fn subst_char(c: char, vars: Seq<char>, vals: Seq<bool>) -> char
    decreases vars.len(),
{
    if vars.len() == 0 {
        c
    } else if vars[0] == c {
        if vals[0] {
            '1'
        } else {
            '0'
        }
    } else {
        subst_char(c, vars.skip(1), vals.skip(1))
    }
}

/// Per-character substitution over a whole formula string.
pub open spec fn subst_seq(s: Seq<char>, vars: Seq<char>, vals: Seq<bool>) -> Seq<char> {
    Seq::new(s.len(), |p: int| subst_char(s[p], vars, vals))
}

/// Looks `c` up in the variable list and hands back its literal, or `c`
/// itself when it is not a variable of the formula.
fn subst_one(c: char, vars: &Vec<char>, vals: &Vec<bool>) -> (r: char)
    requires
        vars@.len() == vals@.len(),
    ensures
        r == subst_char(c, vars@, vals@),
{
    let mut k: usize = 0;
    proof {
        assert(vars@.skip(0) =~= vars@);
        assert(vals@.skip(0) =~= vals@);
    }
    while k < vars.len()
        invariant
            k <= vars@.len(),
            vars@.len() == vals@.len(),
            subst_char(c, vars@, vals@) == subst_char(
                c,
                vars@.skip(k as int),
                vals@.skip(k as int),
            ),
        decreases vars@.len() - k,
    {
        proof {
            assert(vars@.skip(k as int)[0] == vars@[k as int]);
            assert(vals@.skip(k as int)[0] == vals@[k as int]);
            assert(vars@.skip(k as int).skip(1) =~= vars@.skip(k + 1));
            assert(vals@.skip(k as int).skip(1) =~= vals@.skip(k + 1));
        }
        if vars[k] == c {
            return if vals[k] {
                '1'
            } else {
                '0'
            };
        }
        k = k + 1;
    }
    proof {
        assert(vars@.skip(k as int).len() == 0);
    }
    c
}

/// Substitutes every variable occurrence in the formula text by the literal
/// of its value, character for character.
pub fn substitute(formula: &str, vars: &Vec<char>, vals: &Vec<bool>) -> (r: String)
    requires
        vars@.len() == vals@.len(),
    ensures
        r@ == subst_seq(formula@, vars@, vals@),
{
    let n = formula.unicode_len();
    let mut out = String::new();
    let mut i: usize = 0;
    while i < n
        invariant
            i <= n,
            n == formula@.len(),
            vars@.len() == vals@.len(),
            out@.len() == i,
            forall|p: int| 0 <= p < i ==> out@[p] == subst_char(formula@[p], vars@, vals@),
        decreases n - i,
    {
        let c = formula.get_char(i);
        let sc = subst_one(c, vars, vals);
        push_char(&mut out, sc);
        i = i + 1;
    }
    proof {
        assert(out@ =~= subst_seq(formula@, vars@, vals@));
    }
    out
}

/// One row of the table: the assignment's values in variable order, and the
/// formula's value under that assignment.
#[derive(Debug)]
pub struct TruthTableRow {
    pub values: Vec<bool>,
    pub result: bool,
}

/// A whole table: the variables in ascending order and one row per
/// assignment, in counter order.
#[derive(Debug)]
pub struct TruthTable {
    pub vars: Vec<char>,
    pub rows: Vec<TruthTableRow>,
}

/// What one row's evaluation yields: the formula with row `i`'s literals
/// substituted in, re-parsed and evaluated.
pub open spec fn row_outcome(s: Seq<char>, vars: Seq<char>, i: u32) -> Result<bool, Error> {
    eval_outcome(subst_seq(s, vars, row_values(vars.len(), i)))
}

/// The first position of `c` in the variable list, or -1 when it is absent.
pub open spec fn find_var(vars: Seq<char>, c: char) -> int
    decreases vars.len(),
{
    if vars.len() == 0 {
        -1
    } else if vars[0] == c {
        0
    } else {
        let r = find_var(vars.skip(1), c);
        if r == -1 {
            -1
        } else {
            r + 1
        }
    }
}

/// `find_var` finds an occurrence exactly when there is one.
proof fn lemma_find_var_props(vars: Seq<char>, c: char)
    ensures
        find_var(vars, c) == -1 ==> !vars.contains(c),
        find_var(vars, c) != -1 ==> 0 <= find_var(vars, c) < vars.len() && vars[find_var(
            vars,
            c,
        )] == c,
    decreases vars.len(),
{
    if vars.len() > 0 && vars[0] != c {
        lemma_find_var_props(vars.skip(1), c);
        if find_var(vars, c) == -1 && vars.contains(c) {
            let w = choose|w: int| 0 <= w < vars.len() && vars[w] == c;
            assert(vars.skip(1)[w - 1] == c);
        }
    }
}

/// Character substitution, written with the first-occurrence index.
proof fn lemma_subst_char_find(c: char, vars: Seq<char>, vals: Seq<bool>)
    requires
        vars.len() == vals.len(),
    ensures
        subst_char(c, vars, vals) == (if find_var(vars, c) != -1 {
            if vals[find_var(vars, c)] {
                '1'
            } else {
                '0'
            }
        } else {
            c
        }),
    decreases vars.len(),
{
    if vars.len() > 0 && vars[0] != c {
        lemma_subst_char_find(c, vars.skip(1), vals.skip(1));
        lemma_find_var_props(vars.skip(1), c);
    }
}

/// The substitution of one classified symbol: a variable of the list becomes
/// its constant, everything else is untouched.
pub open spec fn unit_subst(u: Unit, vars: Seq<char>, vals: Seq<bool>) -> Unit {
    match u {
        Unit::Variable(c) => if find_var(vars, c) != -1 {
            Unit::Value(
                if vals[find_var(vars, c)] {
                    Value::True
                } else {
                    Value::False
                },
            )
        } else {
            u
        },
        _ => u,
    }
}

/// The substitution at the level of formulas: every variable of the list is
/// replaced by its constant.
pub open spec fn subst_form(f: Form, vars: Seq<char>, vals: Seq<bool>) -> Form
    decreases f,
{
    match f {
        Form::Val(_) => f,
        Form::Var(c) => if find_var(vars, c) != -1 {
            Form::Val(vals[find_var(vars, c)])
        } else {
            f
        },
        Form::Not(x) => Form::Not(Box::new(subst_form(*x, vars, vals))),
        Form::Bin(op, l, r) => Form::Bin(
            op,
            Box::new(subst_form(*l, vars, vals)),
            Box::new(subst_form(*r, vars, vals)),
        ),
    }
}

/// Element-wise substitution over a symbol sequence.
pub open spec fn units_subst(us: Seq<Unit>, vars: Seq<char>, vals: Seq<bool>) -> Seq<Unit> {
    Seq::new(us.len(), |k: int| unit_subst(us[k], vars, vals))
}

/// Element-wise substitution over a stack of formulas.
pub open spec fn forms_subst(st: Seq<Form>, vars: Seq<char>, vals: Seq<bool>) -> Seq<Form> {
    Seq::new(st.len(), |k: int| subst_form(st[k], vars, vals))
}

/// The assignment the substitution realizes: each listed variable maps to
/// its value.
pub open spec fn assignment_map(vars: Seq<char>, vals: Seq<bool>) -> Map<char, bool> {
    Map::new(|c: char| find_var(vars, c) != -1, |c: char| vals[find_var(vars, c)])
}

/// Classifying a substituted character classifies the original symbol and
/// substitutes it, provided the variable list holds only uppercase letters.
proof fn lemma_classify_subst_char(c: char, vars: Seq<char>, vals: Seq<bool>)
    requires
        vars.len() == vals.len(),
        forall|p: int| 0 <= p < vars.len() ==> 'A' <= #[trigger] vars[p] <= 'Z',
    ensures
        classify_char(subst_char(c, vars, vals)) == (match classify_char(c) {
            Ok(u) => Ok::<Unit, Error>(unit_subst(u, vars, vals)),
            Err(e) => Err::<Unit, Error>(e),
        }),
{
    lemma_subst_char_find(c, vars, vals);
    lemma_find_var_props(vars, c);
}

/// Classifying a substituted string substitutes the classification of the
/// original, error for error.
proof fn lemma_classify_subst_all(s: Seq<char>, vars: Seq<char>, vals: Seq<bool>)
    requires
        vars.len() == vals.len(),
        forall|p: int| 0 <= p < vars.len() ==> 'A' <= #[trigger] vars[p] <= 'Z',
    ensures
        classify_all(subst_seq(s, vars, vals)) == (match classify_all(s) {
            Ok(us) => Ok::<Seq<Unit>, Error>(units_subst(us, vars, vals)),
            Err(e) => Err::<Seq<Unit>, Error>(e),
        }),
    decreases s.len(),
{
    if s.len() == 0 {
        assert(subst_seq(s, vars, vals) =~= Seq::<char>::empty());
        assert(units_subst(Seq::empty(), vars, vals) =~= Seq::<Unit>::empty());
    } else {
        lemma_classify_subst_all(s.drop_last(), vars, vals);
        lemma_classify_subst_char(s.last(), vars, vals);
        assert(subst_seq(s, vars, vals).drop_last() =~= subst_seq(s.drop_last(), vars, vals));
        assert(subst_seq(s, vars, vals).last() == subst_char(s.last(), vars, vals));
        if classify_all(s.drop_last()) is Ok && classify_char(s.last()) is Ok {
            let us = classify_all(s.drop_last())->Ok_0;
            let u = classify_char(s.last())->Ok_0;
            assert(units_subst(us.push(u), vars, vals) =~= units_subst(us, vars, vals).push(
                unit_subst(u, vars, vals),
            ));
        }
    }
}

/// Building from substituted symbols substitutes the stack the original
/// symbols build, error for error.
proof fn lemma_build_subst_all(us: Seq<Unit>, vars: Seq<char>, vals: Seq<bool>)
    requires
        vars.len() == vals.len(),
    ensures
        build_all(units_subst(us, vars, vals)) == (match build_all(us) {
            Ok(st) => Ok::<Seq<Form>, Error>(forms_subst(st, vars, vals)),
            Err(e) => Err::<Seq<Form>, Error>(e),
        }),
    decreases us.len(),
{
    if us.len() == 0 {
        assert(units_subst(us, vars, vals) =~= Seq::<Unit>::empty());
        assert(forms_subst(Seq::empty(), vars, vals) =~= Seq::<Form>::empty());
    } else {
        lemma_build_subst_all(us.drop_last(), vars, vals);
        assert(units_subst(us, vars, vals).drop_last() =~= units_subst(
            us.drop_last(),
            vars,
            vals,
        ));
        assert(units_subst(us, vars, vals).last() == unit_subst(us.last(), vars, vals));
        if build_all(us.drop_last()) is Ok {
            let st = build_all(us.drop_last())->Ok_0;
            let mst = forms_subst(st, vars, vals);
            match push_unit(st, us.last()) {
                Ok(st2) => {
                    assert(forms_subst(st2, vars, vals) =~= push_unit(
                        mst,
                        unit_subst(us.last(), vars, vals),
                    )->Ok_0);
                },
                Err(_) => {},
            }
        }
    }
}

/// Parsing a substituted formula parses the original and substitutes the
/// tree, error for error.
pub proof fn lemma_parse_subst(s: Seq<char>, vars: Seq<char>, vals: Seq<bool>)
    requires
        vars.len() == vals.len(),
        forall|p: int| 0 <= p < vars.len() ==> 'A' <= #[trigger] vars[p] <= 'Z',
    ensures
        parse_formula(subst_seq(s, vars, vals)) == (match parse_formula(s) {
            Ok(f) => Ok::<Form, Error>(subst_form(f, vars, vals)),
            Err(e) => Err::<Form, Error>(e),
        }),
{
    lemma_classify_subst_all(s, vars, vals);
    if classify_all(s) is Ok {
        lemma_build_subst_all(classify_all(s)->Ok_0, vars, vals);
    }
}

/// A substituted formula that came out ground evaluates to the original's
/// value under the assignment the substitution realizes.
proof fn lemma_subst_form_eval(f: Form, vars: Seq<char>, vals: Seq<bool>, a: Map<char, bool>)
    requires
        vars.len() == vals.len(),
        ground(subst_form(f, vars, vals)),
    ensures
        evalf(subst_form(f, vars, vals), a) == evalf(f, assignment_map(vars, vals)),
    decreases f,
{
    match f {
        Form::Val(_) => {},
        Form::Var(c) => {
            assert(assignment_map(vars, vals)[c] == vals[find_var(vars, c)]);
        },
        Form::Not(x) => {
            lemma_subst_form_eval(*x, vars, vals, a);
        },
        Form::Bin(op, l, r) => {
            lemma_subst_form_eval(*l, vars, vals, a);
            lemma_subst_form_eval(*r, vars, vals, a);
        },
    }
}

/// Driver coherence: when the formula parses, substituting literals for the
/// listed variables and re-running the whole pipeline evaluates the parsed
/// formula under the corresponding assignment; when it does not, the same
/// error comes back. A variable the list misses surfaces as `UnboundVariable`.
pub proof fn lemma_substitution_semantics(s: Seq<char>, vars: Seq<char>, vals: Seq<bool>)
    requires
        vars.len() == vals.len(),
        forall|p: int| 0 <= p < vars.len() ==> 'A' <= #[trigger] vars[p] <= 'Z',
    ensures
        parse_formula(s) is Err ==> eval_outcome(subst_seq(s, vars, vals)) == Err::<bool, Error>(
            parse_formula(s)->Err_0,
        ),
        (parse_formula(s) matches Ok(f) ==> (if ground(subst_form(f, vars, vals)) {
            eval_outcome(subst_seq(s, vars, vals)) == Ok::<bool, Error>(
                evalf(f, assignment_map(vars, vals)),
            )
        } else {
            eval_outcome(subst_seq(s, vars, vals)) == Err::<bool, Error>(Error::UnboundVariable)
        })),
{
    lemma_parse_subst(s, vars, vals);
    match parse_formula(s) {
        Ok(f) => {
            if ground(subst_form(f, vars, vals)) {
                lemma_subst_form_eval(f, vars, vals, Map::empty());
                assert(evalc(subst_form(f, vars, vals)) == evalf(f, assignment_map(vars, vals)));
            }
        },
        Err(_) => {},
    }
}

/// Row `i` is the first assignment whose substituted formula fails, and it
/// fails with error `e`.
pub open spec fn fails_first_at(s: Seq<char>, vs: Seq<char>, i: u32, e: Error) -> bool {
    &&& (i as nat) < pow2(vs.len())
    &&& row_outcome(s, vs, i) == Err::<bool, Error>(e)
    &&& forall|q: u32| q < i ==> (#[trigger] row_outcome(s, vs, q)) is Ok
}

/// Truth table driver: extracts the variables, and for each of the 2^n
/// assignments substitutes, re-parses and evaluates the formula. Stops at
/// the first failing row.
#[verifier::rlimit(60)]
pub fn truth_table(formula: &str) -> (r: Result<TruthTable, Error>)
    ensures
        (match r {
            Ok(t) => {
                &&& is_variables_of(t.vars@, formula@)
                &&& t.rows@.len() == pow2(t.vars@.len())
                &&& forall|p: int|
                    0 <= p < t.rows@.len() ==> (#[trigger] t.rows@[p]).values@ == row_values(
                        t.vars@.len(),
                        p as u32,
                    )
                &&& forall|p: int|
                    0 <= p < t.rows@.len() ==> Ok::<bool, Error>(
                        (#[trigger] t.rows@[p]).result,
                    ) == row_outcome(formula@, t.vars@, p as u32)
            },
            Err(e) => exists|vs: Seq<char>, i: u32|
                is_variables_of(vs, formula@) && #[trigger] fails_first_at(formula@, vs, i, e),
        }),
{
    let vars = variables(formula);
    let n = vars.len();
    proof {
        lemma2_to64();
        lemma_pow2_strictly_increases(n as nat, 32);
        lemma_u32_shl_is_mul(1u32, n as u32);
    }
    let total: u32 = 1u32 << (n as u32);
    let mut rows: Vec<TruthTableRow> = Vec::new();
    let mut i: u32 = 0;
    while i < total
        invariant
            n == vars@.len(),
            n <= 26,
            is_variables_of(vars@, formula@),
            total == pow2(n as nat),
            i <= total,
            rows@.len() == i,
            forall|p: int|
                0 <= p < i ==> (#[trigger] rows@[p]).values@ == row_values(n as nat, p as u32),
            forall|p: int|
                0 <= p < i ==> Ok::<bool, Error>((#[trigger] rows@[p]).result) == row_outcome(
                    formula@,
                    vars@,
                    p as u32,
                ),
        decreases total - i,
    {
        let vals = row_values_vec(n, i);
        let substituted = substitute(formula, &vars, &vals);
        match eval_formula(substituted.as_str()) {
            Ok(b) => {
                rows.push(TruthTableRow { values: vals, result: b });
            },
            Err(e) => {
                proof {
                    assert forall|q: u32| q < i implies (#[trigger] row_outcome(
                        formula@,
                        vars@,
                        q,
                    )) is Ok by {
                        assert(Ok::<bool, Error>(rows@[q as int].result) == row_outcome(
                            formula@,
                            vars@,
                            q,
                        ));
                    }
                    assert(fails_first_at(formula@, vars@, i, e));
                }
                return Err(e);
            },
        }
        i = i + 1;
    }
    Ok(TruthTable { vars, rows })
}

} // verus!
