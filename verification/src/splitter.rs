//! Locating the lowest-priority operator in a token sequence and
//! partitioning the sequence into left and right sub-expressions.
//!
//! Tokens are the pieces of the expression between single spaces. The
//! operator tiers, loosest first: `+`/`-`, then `*`//`/`, then `^`. The
//! scan selects the leftmost token of the loosest tier present; an
//! expression without any of the five operator characters is left whole.

use vstd::prelude::*;

use crate::text::{find_char, join_char, join_tokens, split_char, split_str};
use crate::text::{lemma_join_split, lemma_split_remainders_shorter};

verus! {

/// The five recognized operator characters.
pub open spec fn is_operator_char(c: char) -> bool {
    c == '+' || c == '-' || c == '*' || c == '/' || c == '^'
}

pub open spec fn has_operator_char(s: Seq<char>) -> bool {
    exists|j: int| 0 <= j < s.len() && #[trigger] is_operator_char(s[j])
}

/// The binding tier of a token: 1 for `+`/`-` (loosest), 2 for `*`/`/`,
/// 3 for `^`, 4 for anything that is not a lone operator character.
pub open spec fn token_priority(t: Seq<char>) -> int {
    if t.len() == 1 && (t[0] == '+' || t[0] == '-') {
        1
    } else if t.len() == 1 && (t[0] == '*' || t[0] == '/') {
        2
    } else if t.len() == 1 && t[0] == '^' {
        3
    } else {
        4
    }
}

/// Index of the first token with priority `p`, or `toks.len()` if none.
pub open spec fn first_with_priority(toks: Seq<Seq<char>>, p: int) -> int
    decreases toks.len(),
{
    if toks.len() == 0 {
        0
    } else if token_priority(toks[0]) == p {
        0
    } else {
        1 + first_with_priority(toks.drop_first(), p)
    }
}

pub open spec fn has_priority(toks: Seq<Seq<char>>, p: int) -> bool {
    exists|j: int| 0 <= j < toks.len() && #[trigger] token_priority(toks[j]) == p
}

pub proof fn lemma_first_with_priority(toks: Seq<Seq<char>>, p: int)
    ensures
        0 <= first_with_priority(toks, p) <= toks.len(),
        first_with_priority(toks, p) < toks.len() ==> token_priority(
            toks[first_with_priority(toks, p)],
        ) == p,
        forall|j: int| 0 <= j < first_with_priority(toks, p) ==> token_priority(toks[j]) != p,
        has_priority(toks, p) <==> first_with_priority(toks, p) < toks.len(),
    decreases toks.len(),
{
    if toks.len() == 0 {
    } else if token_priority(toks[0]) == p {
    } else {
        lemma_first_with_priority(toks.drop_first(), p);
        let f = first_with_priority(toks, p);
        assert forall|j: int| 0 <= j < f implies token_priority(toks[j]) != p by {
            if j > 0 {
                assert(toks.drop_first()[j - 1] == toks[j]);
            }
        }
        if has_priority(toks, p) {
            let j = choose|j: int| 0 <= j < toks.len() && #[trigger] token_priority(toks[j]) == p;
            assert(j > 0);
            assert(toks.drop_first()[j - 1] == toks[j]);
            assert(has_priority(toks.drop_first(), p));
        }
        if f < toks.len() {
            assert(toks.drop_first()[f - 1] == toks[f]);
            assert(has_priority(toks, p));
        }
    }
}

pub proof fn lemma_first_with_priority_is(toks: Seq<Seq<char>>, p: int, k: int)
    requires
        0 <= k < toks.len(),
        token_priority(toks[k]) == p,
        forall|j: int| 0 <= j < k ==> token_priority(toks[j]) != p,
    ensures
        first_with_priority(toks, p) == k,
    decreases toks.len(),
{
    if k > 0 {
        assert(toks.drop_first()[k - 1] == toks[k]);
        assert forall|j: int| 0 <= j < k - 1 implies token_priority(toks.drop_first()[j]) != p by {
            assert(toks.drop_first()[j] == toks[j + 1]);
        }
        lemma_first_with_priority_is(toks.drop_first(), p, k - 1);
    }
}

/// The token where the scan stops: the leftmost token of the loosest
/// tier present, or index 0 when no operator token exists.
pub open spec fn selected_index(toks: Seq<Seq<char>>) -> int {
    if has_priority(toks, 1) {
        first_with_priority(toks, 1)
    } else if has_priority(toks, 2) {
        first_with_priority(toks, 2)
    } else if has_priority(toks, 3) {
        first_with_priority(toks, 3)
    } else {
        0
    }
}

/// What splitting an expression yields: the selected token (or the whole
/// expression when it holds no operator character), and the tokens on
/// either side of the selection re-joined with single spaces.
pub open spec fn split_spec(s: Seq<char>) -> (Seq<char>, Seq<char>, Seq<char>) {
    if !has_operator_char(s) {
        (s, Seq::<char>::empty(), Seq::<char>::empty())
    } else {
        let toks = split_char(s, ' ');
        let i = selected_index(toks);
        (
            toks[i],
            join_char(toks.subrange(0, i), ' '),
            join_char(toks.subrange(i + 1, toks.len() as int), ' '),
        )
    }
}

/// Both remainders of a split are strictly shorter than the expression
/// whenever they are non-empty; the recursion of tree construction
/// terminates on them.
pub proof fn lemma_split_spec_shorter(s: Seq<char>)
    ensures
        split_spec(s).1.len() > 0 ==> split_spec(s).1.len() < s.len(),
        split_spec(s).2.len() > 0 ==> split_spec(s).2.len() < s.len(),
{
    if has_operator_char(s) {
        let toks = split_char(s, ' ');
        let i = selected_index(toks);
        lemma_first_with_priority(toks, 1);
        lemma_first_with_priority(toks, 2);
        lemma_first_with_priority(toks, 3);
        assert(0 <= i < toks.len());
        lemma_split_remainders_shorter(s, ' ', i);
    }
}

/// An additive operator token always wins the scan: when one is present,
/// the selected token is the leftmost `+`/`-`, wherever tighter operators
/// stand before or after it.
pub proof fn lemma_additive_operator_wins(toks: Seq<Seq<char>>)
    requires
        has_priority(toks, 1),
    ensures
        0 <= selected_index(toks) < toks.len(),
        token_priority(toks[selected_index(toks)]) == 1,
        forall|j: int| 0 <= j < selected_index(toks) ==> token_priority(toks[j]) != 1,
{
    lemma_first_with_priority(toks, 1);
}

/// `^` binds loosest only by default: the scan selects a `^` token only
/// when the sequence holds no additive and no multiplicative token.
pub proof fn lemma_power_selected_only_alone(toks: Seq<Seq<char>>)
    requires
        0 <= selected_index(toks) < toks.len(),
        token_priority(toks[selected_index(toks)]) == 3,
    ensures
        !has_priority(toks, 1),
        !has_priority(toks, 2),
{
    lemma_first_with_priority(toks, 1);
    lemma_first_with_priority(toks, 2);
    lemma_first_with_priority(toks, 3);
}

/// True when the expression holds none of the five operator characters
/// anywhere, not even inside a token.
pub fn has_no_operators(expression: &String) -> (r: bool)
    ensures
        r == !has_operator_char(expression@),
{
    let s = expression.as_str();
    proof {
        assert(s@ == expression@);
    }
    let n = s.unicode_len();
    let mut i: usize = 0;
    while i < n
        invariant
            i <= n,
            n == s@.len(),
            s@ == expression@,
            forall|j: int| 0 <= j < i ==> !(#[trigger] is_operator_char(s@[j])),
        decreases n - i,
    {
        let c = s.get_char(i);
        if c == '+' || c == '-' || c == '*' || c == '/' || c == '^' {
            proof {
                assert(i < s@.len());
                assert(is_operator_char(s@[i as int]));
                assert(has_operator_char(s@));
                assert(has_operator_char(expression@));
            }
            return false;
        }
        i = i + 1;
    }
    true
}

fn token_priority_exec(t: &str) -> (p: u8)
    ensures
        p as int == token_priority(t@),
{
    if t.unicode_len() == 1 {
        let c = t.get_char(0);
        if c == '+' || c == '-' {
            1
        } else if c == '*' || c == '/' {
            2
        } else if c == '^' {
            3
        } else {
            4
        }
    } else {
        4
    }
}

/// Splits the expression at the lowest-priority operator token. An
/// expression without operator characters comes back whole with empty
/// remainders; otherwise the result is the selected operator token, the
/// tokens before it re-joined with spaces, and the tokens after it
/// re-joined with spaces.
pub fn split_on_lowest_priority_operator(expression: String) -> (r: (String, String, String))
    ensures
        r.0@ == split_spec(expression@).0,
        r.1@ == split_spec(expression@).1,
        r.2@ == split_spec(expression@).2,
{
    if has_no_operators(&expression) {
        return (expression, String::new(), String::new());
    }
    let tokens = split_str(expression.as_str(), ' ');
    let ghost dv = tokens.deep_view();
    let mut best: usize = 0;
    let mut current_priority: u8 = 4;
    let mut idx: usize = 0;
    let mut found_additive: bool = false;
    while idx < tokens.len() && !found_additive
        invariant
            idx <= tokens.len(),
            dv == tokens.deep_view(),
            dv.len() == tokens.len(),
            current_priority == 1 || current_priority == 2 || current_priority == 3
                || current_priority == 4,
            found_additive ==> current_priority == 1,
            current_priority == 1 ==> found_additive,
            forall|j: int| 0 <= j < idx ==> token_priority(dv[j]) != 1 || (found_additive && best
                == j),
            current_priority == 4 ==> best == 0 && forall|j: int|
                0 <= j < idx ==> token_priority(#[trigger] dv[j]) == 4,
            current_priority == 2 ==> best < idx && token_priority(dv[best as int]) == 2
                && forall|j: int| 0 <= j < best ==> token_priority(#[trigger] dv[j]) >= 3,
            current_priority == 3 ==> best < idx && token_priority(dv[best as int]) == 3
                && forall|j: int| 0 <= j < best ==> token_priority(#[trigger] dv[j]) == 4,
            current_priority == 2 || current_priority == 3 ==> forall|j: int|
                0 <= j < idx ==> token_priority(#[trigger] dv[j]) >= current_priority,
            current_priority == 1 ==> best < idx && token_priority(dv[best as int]) == 1
                && forall|j: int| 0 <= j < best ==> token_priority(#[trigger] dv[j]) != 1,
        decreases tokens.len() - idx,
    {
        let p = token_priority_exec(tokens[idx].as_str());
        proof {
            assert(dv[idx as int] == tokens@[idx as int]@);
        }
        if p == 1 {
            best = idx;
            current_priority = 1;
            found_additive = true;
        } else if p == 2 && current_priority > 2 {
            best = idx;
            current_priority = 2;
        } else if p == 3 && current_priority > 3 {
            best = idx;
            current_priority = 3;
        }
        idx = idx + 1;
    }
    proof {
        lemma_first_with_priority(dv, 1);
        lemma_first_with_priority(dv, 2);
        lemma_first_with_priority(dv, 3);
        if current_priority == 1 {
            lemma_first_with_priority_is(dv, 1, best as int);
            assert(has_priority(dv, 1));
        } else {
            assert(idx == tokens.len());
            assert(!has_priority(dv, 1));
            if current_priority == 2 {
                lemma_first_with_priority_is(dv, 2, best as int);
                assert(has_priority(dv, 2));
            } else if current_priority == 3 {
                lemma_first_with_priority_is(dv, 3, best as int);
                assert(has_priority(dv, 3));
                assert(!has_priority(dv, 2));
            } else {
                assert(!has_priority(dv, 2));
                assert(!has_priority(dv, 3));
            }
        }
        assert(best as int == selected_index(dv));
        assert(dv.len() >= 1);
        assert(best < tokens.len());
    }
    let operator = tokens[best].clone();
    let l_expression = join_tokens(&tokens, 0, best);
    let r_expression = join_tokens(&tokens, best + 1, tokens.len());
    (operator, l_expression, r_expression)
}

} // verus!
