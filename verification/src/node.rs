//! The binary expression tree: recursive construction from an expression
//! string and recursive rendering as indented text.

use vstd::prelude::*;

use crate::splitter::{
    has_operator_char, lemma_split_spec_shorter, split_on_lowest_priority_operator, split_spec,
};
use crate::text::{
    is_whitespace_char, join_char, lemma_join_decompose, lemma_split_char_step,
    lemma_split_char_whole, split_char, trim_end_spec,
};

verus! {

/// A node of the expression tree. `value` holds either an operator token
/// or an operand as typed; a node without children is a leaf.
pub struct Node {
    pub value: String,
    pub l_child: Option<Box<Node>>,
    pub r_child: Option<Box<Node>>,
}

/// Why evaluating a tree fails: a value that is not a number where an
/// operand is needed (or not an operator where an operator is needed), or
/// a division whose right operand is zero.
#[derive(Debug)]
pub enum NodeError {
    InvalidExpression(String),
    DivideByZero,
}

impl NodeError {
    /// The one-line description of the error, as it is shown to the user.
    pub fn message(&self) -> (r: String)
        ensures
            (match self {
                NodeError::InvalidExpression(m) => r@ == "The entered expression is invalid: "@
                    + m@,
                NodeError::DivideByZero => r@ == "Cannot divide by zero"@,
            }),
    {
        match self {
            NodeError::InvalidExpression(m) => String::from_str(
                "The entered expression is invalid: ",
            ).concat(m.as_str()),
            NodeError::DivideByZero => String::from_str("Cannot divide by zero"),
        }
    }
}

impl Node {
    /// The tree is exactly what recursive splitting of `s` constructs: the
    /// node's value is the split's operator-or-value, and each side holds a
    /// subtree precisely when the corresponding remainder is non-empty.
    pub open spec fn builds_from(self, s: Seq<char>) -> bool
        decreases self,
    {
        &&& self.value@ == split_spec(s).0
        &&& (match self.l_child {
            None => split_spec(s).1.len() == 0,
            Some(l) => split_spec(s).1.len() > 0 && l.builds_from(split_spec(s).1),
        })
        &&& (match self.r_child {
            None => split_spec(s).2.len() == 0,
            Some(r) => split_spec(s).2.len() > 0 && r.builds_from(split_spec(s).2),
        })
    }

    /// Builds the tree for an expression: split on the lowest-priority
    /// operator, then recurse into each non-empty remainder. No input is
    /// rejected here; malformed expressions yield degenerate trees whose
    /// problems surface only at evaluation.
    pub fn from_expression(expression: String) -> (r: Self)
        ensures
            r.builds_from(expression@),
            !has_operator_char(expression@) ==> r.l_child is None && r.r_child is None
                && r.value@ == expression@,
        decreases expression@.len(),
    {
        let ghost s = expression@;
        let (operator, l_expression, r_expression) = split_on_lowest_priority_operator(expression);
        proof {
            lemma_split_spec_shorter(s);
        }
        let l_child: Option<Box<Node>> = if l_expression.as_str().is_empty() {
            None
        } else {
            Some(Box::new(Self::from_expression(l_expression)))
        };
        let r_child: Option<Box<Node>> = if r_expression.as_str().is_empty() {
            None
        } else {
            Some(Box::new(Self::from_expression(r_expression)))
        };
        Node { value: operator, l_child, r_child }
    }

    /// Whether the node has at least one child.
    pub fn has_children(&self) -> (b: bool)
        ensures
            b == (self.l_child is Some || self.r_child is Some),
    {
        match (&self.l_child, &self.r_child) {
            (None, None) => false,
            (_, _) => true,
        }
    }

    /// The rendered text of the tree. A leaf is its value alone. An inner
    /// node is its value, a newline, then each child's rendering trimmed of
    /// trailing whitespace, split into rows, and re-emitted row by row with
    /// a marker before the first row and an alignment prefix before the
    /// rest; every emitted row ends with a newline. A left child beside a
    /// right sibling is marked `|-- `, a sole or right child `` `-- ``.
    pub open spec fn render(self) -> Seq<char>
        decreases self,
    {
        if self.l_child is None && self.r_child is None {
            self.value@
        } else {
            let l_part = match self.l_child {
                None => Seq::<char>::empty(),
                Some(l) => marked_block(
                    split_char(trim_end_spec(l.render()), '\n'),
                    if self.r_child is Some {
                        branch_first()
                    } else {
                        last_first()
                    },
                    if self.r_child is Some {
                        branch_rest()
                    } else {
                        last_rest()
                    },
                ),
            };
            let r_part = match self.r_child {
                None => Seq::<char>::empty(),
                Some(r) => marked_block(
                    split_char(trim_end_spec(r.render()), '\n'),
                    last_first(),
                    last_rest(),
                ),
            };
            self.value@ + seq!['\n'] + l_part + r_part
        }
    }

    /// Renders the tree as indented text.
    pub fn to_string(&self) -> (r: String)
        ensures
            r@ == self.render(),
        decreases *self,
    {
        proof {
            reveal_strlit("\n");
            reveal_strlit("|-- ");
            reveal_strlit("|   ");
            reveal_strlit("`-- ");
            reveal_strlit("    ");
            assert("|-- "@ =~= branch_first());
            assert("|   "@ =~= branch_rest());
            assert("`-- "@ =~= last_first());
            assert("    "@ =~= last_rest());
            assert("\n"@ =~= seq!['\n']);
        }
        let mut result = self.value.clone();
        let both = match (&self.l_child, &self.r_child) {
            (None, None) => {
                return result;
            },
            (Some(_), Some(_)) => true,
            (_, _) => false,
        };
        result.append("\n");
        match &self.l_child {
            None => {},
            Some(l) => {
                let child = l.to_string();
                let trimmed = crate::text::trim_end_str(child.as_str());
                let rows = crate::text::split_str(trimmed, '\n');
                if both {
                    append_block(&mut result, &rows, "|-- ", "|   ");
                } else {
                    append_block(&mut result, &rows, "`-- ", "    ");
                }
            },
        }
        match &self.r_child {
            None => {},
            Some(r) => {
                let child = r.to_string();
                let trimmed = crate::text::trim_end_str(child.as_str());
                let rows = crate::text::split_str(trimmed, '\n');
                append_block(&mut result, &rows, "`-- ", "    ");
            },
        }
        proof {
            assert(result@ =~= self.render());
        }
        result
    }
}

/// Two trees with the same shape and the same value at every node.
pub open spec fn same_tree(a: Node, b: Node) -> bool
    decreases a,
{
    &&& a.value@ == b.value@
    &&& (match (a.l_child, b.l_child) {
        (None, None) => true,
        (Some(x), Some(y)) => same_tree(*x, *y),
        _ => false,
    })
    &&& (match (a.r_child, b.r_child) {
        (None, None) => true,
        (Some(x), Some(y)) => same_tree(*x, *y),
        _ => false,
    })
}

/// Building a tree from an expression is deterministic: two trees built
/// from the same string agree in shape and in every value, so evaluating
/// and rendering them can only yield identical outcomes.
pub proof fn lemma_builds_from_deterministic(a: Node, b: Node, s: Seq<char>)
    requires
        a.builds_from(s),
        b.builds_from(s),
    ensures
        same_tree(a, b),
    decreases a,
{
    match (a.l_child, b.l_child) {
        (Some(x), Some(y)) => {
            lemma_builds_from_deterministic(*x, *y, split_spec(s).1);
        },
        _ => {},
    }
    match (a.r_child, b.r_child) {
        (Some(x), Some(y)) => {
            lemma_builds_from_deterministic(*x, *y, split_spec(s).2);
        },
        _ => {},
    }
}

/// Rendering looks only at shape and values: trees that agree on both
/// render to the same text.
pub proof fn lemma_same_tree_same_rendering(a: Node, b: Node)
    requires
        same_tree(a, b),
    ensures
        a.render() == b.render(),
    decreases a,
{
    match (a.l_child, b.l_child) {
        (Some(x), Some(y)) => {
            lemma_same_tree_same_rendering(*x, *y);
        },
        _ => {},
    }
    match (a.r_child, b.r_child) {
        (Some(x), Some(y)) => {
            lemma_same_tree_same_rendering(*x, *y);
        },
        _ => {},
    }
}

/// The root of a tree built from an expression that holds an additive
/// operator token is the leftmost such token, wherever multiplicative or
/// power tokens stand: the loosest tier is split first.
pub proof fn lemma_additive_root(n: Node, s: Seq<char>)
    requires
        n.builds_from(s),
        has_operator_char(s),
        crate::splitter::has_priority(split_char(s, ' '), 1),
    ensures
        n.value@ == split_char(s, ' ')[crate::splitter::first_with_priority(
            split_char(s, ' '),
            1,
        )],
        crate::splitter::token_priority(n.value@) == 1,
{
    crate::splitter::lemma_additive_operator_wins(split_char(s, ' '));
}

/// The marker put before a left child's first row when a right sibling
/// follows, and the alignment prefix for its remaining rows.
pub open spec fn branch_first() -> Seq<char> {
    seq!['|', '-', '-', ' ']
}

pub open spec fn branch_rest() -> Seq<char> {
    seq!['|', ' ', ' ', ' ']
}

/// The marker put before the last (or only) child's first row, and the
/// alignment prefix for its remaining rows.
pub open spec fn last_first() -> Seq<char> {
    seq!['`', '-', '-', ' ']
}

pub open spec fn last_rest() -> Seq<char> {
    seq![' ', ' ', ' ', ' ']
}

/// The rows prefixed with `first` (first row) or `rest` (the others), each
/// followed by a newline, concatenated.
pub open spec fn marked_block(rows: Seq<Seq<char>>, first: Seq<char>, rest: Seq<char>) -> Seq<char>
    decreases rows.len(),
{
    if rows.len() == 0 {
        Seq::empty()
    } else {
        first + rows[0] + seq!['\n'] + marked_block(rows.drop_first(), rest, rest)
    }
}

/// The rows prefixed with `first` (first row) or `rest` (the others), as
/// a sequence of rows rather than flattened text.
pub open spec fn mark_rows(rows: Seq<Seq<char>>, first: Seq<char>, rest: Seq<char>) -> Seq<
    Seq<char>,
> {
    Seq::new(
        rows.len(),
        |i: int|
            (if i == 0 {
                first
            } else {
                rest
            }) + rows[i],
    )
}

/// The rows each followed by a newline, concatenated.
pub open spec fn rows_flat(rows: Seq<Seq<char>>) -> Seq<char>
    decreases rows.len(),
{
    if rows.len() == 0 {
        Seq::empty()
    } else {
        rows[0] + seq!['\n'] + rows_flat(rows.drop_first())
    }
}

/// A row of rendered output that re-parsing can recover: non-empty, free
/// of newlines, and not ending in whitespace.
pub open spec fn good_row(row: Seq<char>) -> bool {
    &&& row.len() > 0
    &&& !is_whitespace_char(row[row.len() - 1])
    &&& forall|j: int| 0 <= j < row.len() ==> row[j] != '\n'
}

impl Node {
    /// A tree whose rendering can be re-parsed line by line: every value
    /// is non-empty, holds no whitespace, and does not begin with a
    /// marker character.
    pub open spec fn tidy(self) -> bool
        decreases self,
    {
        &&& self.value@.len() > 0
        &&& (forall|j: int| 0 <= j < self.value@.len() ==> !is_whitespace_char(#[trigger] self.value@[j]))
        &&& self.value@[0] != '|'
        &&& self.value@[0] != '`'
        &&& (match self.l_child {
            None => true,
            Some(l) => l.tidy(),
        })
        &&& (match self.r_child {
            None => true,
            Some(r) => r.tidy(),
        })
    }

    /// The rows of the rendered tree, one per node: the value first, then
    /// each child's rows behind its marker and alignment prefix.
    pub open spec fn logical_rows(self) -> Seq<Seq<char>>
        decreases self,
    {
        if self.l_child is None && self.r_child is None {
            seq![self.value@]
        } else {
            seq![self.value@] + (match self.l_child {
                None => Seq::<Seq<char>>::empty(),
                Some(l) => mark_rows(
                    l.logical_rows(),
                    if self.r_child is Some {
                        branch_first()
                    } else {
                        last_first()
                    },
                    if self.r_child is Some {
                        branch_rest()
                    } else {
                        last_rest()
                    },
                ),
            }) + (match self.r_child {
                None => Seq::<Seq<char>>::empty(),
                Some(r) => mark_rows(r.logical_rows(), last_first(), last_rest()),
            })
        }
    }

    /// How many nodes the tree holds.
    pub open spec fn node_count(self) -> nat
        decreases self,
    {
        1 + (match self.l_child {
            None => 0nat,
            Some(l) => l.node_count(),
        }) + (match self.r_child {
            None => 0nat,
            Some(r) => r.node_count(),
        })
    }
}

pub proof fn lemma_logical_rows_head(t: Node)
    ensures
        t.logical_rows().len() >= 1,
        t.logical_rows()[0] == t.value@,
{
}

/// Each node of the tree contributes exactly one row to the rendering.
pub proof fn lemma_one_row_per_node(t: Node)
    ensures
        t.logical_rows().len() == t.node_count(),
    decreases t,
{
    match t.l_child {
        Some(l) => {
            lemma_one_row_per_node(*l);
        },
        None => {},
    }
    match t.r_child {
        Some(r) => {
            lemma_one_row_per_node(*r);
        },
        None => {},
    }
}

proof fn lemma_marked_block_flat(rows: Seq<Seq<char>>, first: Seq<char>, rest: Seq<char>)
    ensures
        marked_block(rows, first, rest) == rows_flat(mark_rows(rows, first, rest)),
    decreases rows.len(),
{
    if rows.len() > 0 {
        lemma_marked_block_flat(rows.drop_first(), rest, rest);
        assert(mark_rows(rows, first, rest).drop_first() =~= mark_rows(
            rows.drop_first(),
            rest,
            rest,
        ));
        assert(mark_rows(rows, first, rest)[0] == first + rows[0]);
        assert(marked_block(rows, first, rest) =~= rows_flat(mark_rows(rows, first, rest)));
    }
}

proof fn lemma_rows_flat_concat(a: Seq<Seq<char>>, b: Seq<Seq<char>>)
    ensures
        rows_flat(a + b) == rows_flat(a) + rows_flat(b),
    decreases a.len(),
{
    if a.len() == 0 {
        assert(a + b =~= b);
        assert(rows_flat(a) + rows_flat(b) =~= rows_flat(b));
    } else {
        lemma_rows_flat_concat(a.drop_first(), b);
        assert((a + b).drop_first() =~= a.drop_first() + b);
        assert((a + b)[0] == a[0]);
        assert(rows_flat(a + b) =~= rows_flat(a) + rows_flat(b));
    }
}

proof fn lemma_rows_flat_join(rows: Seq<Seq<char>>)
    requires
        rows.len() >= 1,
    ensures
        rows_flat(rows) == join_char(rows, '\n') + seq!['\n'],
    decreases rows.len(),
{
    if rows.len() > 1 {
        lemma_rows_flat_join(rows.drop_first());
        assert(rows_flat(rows) =~= join_char(rows, '\n') + seq!['\n']);
    } else {
        assert(rows.drop_first().len() == 0);
        assert(rows_flat(rows.drop_first()) =~= Seq::<char>::empty());
        assert(rows_flat(rows) =~= join_char(rows, '\n') + seq!['\n']);
    }
}

proof fn lemma_trim_end_no_trailing_ws(s: Seq<char>)
    requires
        s.len() > 0 ==> !is_whitespace_char(s[s.len() - 1]),
    ensures
        trim_end_spec(s) == s,
{
}

proof fn lemma_trim_end_newline(x: Seq<char>)
    requires
        x.len() > 0 ==> !is_whitespace_char(x[x.len() - 1]),
    ensures
        trim_end_spec(x + seq!['\n']) == x,
{
    assert(is_whitespace_char('\n'));
    let s = x + seq!['\n'];
    assert(s[s.len() - 1] == '\n');
    assert(s.drop_last() =~= x);
    lemma_trim_end_no_trailing_ws(x);
}

proof fn lemma_join_last(rows: Seq<Seq<char>>)
    requires
        rows.len() >= 1,
        rows[rows.len() - 1].len() > 0,
    ensures
        join_char(rows, '\n').len() > 0,
        join_char(rows, '\n').last() == rows.last().last(),
{
    let n = rows.len() as int;
    lemma_join_decompose(rows, '\n', n - 1);
    assert(rows.subrange(n - 1, n) =~= seq![rows[n - 1]]);
    assert(join_char(rows.subrange(n - 1, n), '\n') == rows[n - 1]);
}

proof fn lemma_split_join_rows(rows: Seq<Seq<char>>)
    requires
        rows.len() >= 1,
        forall|k: int, j: int|
            0 <= k < rows.len() && 0 <= j < rows[k].len() ==> #[trigger] rows[k][j] != '\n',
    ensures
        split_char(join_char(rows, '\n'), '\n') == rows,
    decreases rows.len(),
{
    if rows.len() == 1 {
        assert forall|j: int| 0 <= j < rows[0].len() implies rows[0][j] != '\n' by {
            assert(rows[0][j] != '\n');
        }
        lemma_split_char_whole(rows[0], '\n');
        assert(seq![rows[0]] =~= rows);
    } else {
        let s = join_char(rows, '\n');
        let k = rows[0].len() as int;
        assert(s == rows[0] + seq!['\n'] + join_char(rows.drop_first(), '\n'));
        assert(s[k] == '\n');
        assert forall|j: int| 0 <= j < k implies s[j] != '\n' by {
            assert(s[j] == rows[0][j]);
        }
        lemma_split_char_step(s, '\n', k);
        assert(s.take(k) =~= rows[0]);
        assert(s.skip(k + 1) =~= join_char(rows.drop_first(), '\n'));
        assert forall|k2: int, j: int|
            0 <= k2 < rows.drop_first().len() && 0 <= j
                < rows.drop_first()[k2].len() implies #[trigger] rows.drop_first()[k2][j]
            != '\n' by {
            assert(rows.drop_first()[k2] == rows[k2 + 1]);
        }
        lemma_split_join_rows(rows.drop_first());
        assert(split_char(s, '\n') =~= rows);
    }
}

/// The four markers: four characters each, none of them a newline.
proof fn lemma_marker_chars()
    ensures
        branch_first().len() == 4,
        branch_rest().len() == 4,
        last_first().len() == 4,
        last_rest().len() == 4,
        forall|j: int| 0 <= j < 4 ==> #[trigger] branch_first()[j] != '\n',
        forall|j: int| 0 <= j < 4 ==> #[trigger] branch_rest()[j] != '\n',
        forall|j: int| 0 <= j < 4 ==> #[trigger] last_first()[j] != '\n',
        forall|j: int| 0 <= j < 4 ==> #[trigger] last_rest()[j] != '\n',
        branch_first()[0] == '|',
        branch_rest()[0] == '|',
        last_first()[0] == '`',
        last_rest()[0] == ' ',
{
    assert forall|j: int| 0 <= j < 4 implies #[trigger] branch_first()[j] != '\n' by {
        if j == 0 {
        } else if j == 1 {
        } else if j == 2 {
        } else {
        }
    }
    assert forall|j: int| 0 <= j < 4 implies #[trigger] branch_rest()[j] != '\n' by {
        if j == 0 {
        } else if j == 1 {
        } else if j == 2 {
        } else {
        }
    }
    assert forall|j: int| 0 <= j < 4 implies #[trigger] last_first()[j] != '\n' by {
        if j == 0 {
        } else if j == 1 {
        } else if j == 2 {
        } else {
        }
    }
    assert forall|j: int| 0 <= j < 4 implies #[trigger] last_rest()[j] != '\n' by {
        if j == 0 {
        } else if j == 1 {
        } else if j == 2 {
        } else {
        }
    }
}

/// One child's contribution to the rendering: the marked block that the
/// parent emits equals the child's rows behind their markers, and those
/// marked rows are still rows that re-parsing can recover.
proof fn lemma_child_block(c: Node, first: Seq<char>, rest: Seq<char>)
    requires
        c.tidy(),
        first.len() > 0,
        rest.len() > 0,
        forall|j: int| 0 <= j < first.len() ==> first[j] != '\n',
        forall|j: int| 0 <= j < rest.len() ==> rest[j] != '\n',
    ensures
        marked_block(split_char(trim_end_spec(c.render()), '\n'), first, rest) == rows_flat(
            mark_rows(c.logical_rows(), first, rest),
        ),
        mark_rows(c.logical_rows(), first, rest).len() == c.logical_rows().len() >= 1,
        forall|k: int|
            0 <= k < c.logical_rows().len() ==> good_row(
                #[trigger] mark_rows(c.logical_rows(), first, rest)[k],
            ),
    decreases c, 1int,
{
    lemma_render_rows(c);
    let rows = c.logical_rows();
    lemma_marked_block_flat(rows, first, rest);
    assert forall|k: int| 0 <= k < rows.len() implies good_row(
        #[trigger] mark_rows(rows, first, rest)[k],
    ) by {
        let m = if k == 0 {
            first
        } else {
            rest
        };
        let row = mark_rows(rows, first, rest)[k];
        assert(row == m + rows[k]);
        assert(good_row(rows[k]));
        assert(row.last() == rows[k].last());
        assert forall|j: int| 0 <= j < row.len() implies row[j] != '\n' by {
            if j < m.len() {
                assert(row[j] == m[j]);
            } else {
                assert(row[j] == rows[k][j - m.len()]);
            }
        }
    }
}

/// Re-parsing the rendered text of a tidy tree, exactly as the renderer's
/// parent would (trim trailing whitespace, split on newlines), yields the
/// tree's rows: one per node, value first, children behind their markers.
pub proof fn lemma_render_rows(t: Node)
    requires
        t.tidy(),
    ensures
        t.logical_rows().len() >= 1,
        forall|k: int| 0 <= k < t.logical_rows().len() ==> good_row(#[trigger] t.logical_rows()[k]),
        split_char(trim_end_spec(t.render()), '\n') == t.logical_rows(),
    decreases t, 0int,
{
    let v = t.value@;
    let rows = t.logical_rows();
    assert(is_whitespace_char('\n'));
    assert(good_row(v));
    if t.l_child is None && t.r_child is None {
        assert(rows =~= seq![v]);
        lemma_trim_end_no_trailing_ws(v);
        lemma_split_char_whole(v, '\n');
        assert(split_char(trim_end_spec(t.render()), '\n') == seq![v]);
    } else {
        lemma_marker_chars();
        let l_marked: Seq<Seq<char>> = match t.l_child {
            None => Seq::<Seq<char>>::empty(),
            Some(l) => mark_rows(
                l.logical_rows(),
                if t.r_child is Some {
                    branch_first()
                } else {
                    last_first()
                },
                if t.r_child is Some {
                    branch_rest()
                } else {
                    last_rest()
                },
            ),
        };
        let r_marked: Seq<Seq<char>> = match t.r_child {
            None => Seq::<Seq<char>>::empty(),
            Some(r) => mark_rows(r.logical_rows(), last_first(), last_rest()),
        };
        match t.l_child {
            None => {},
            Some(l) => {
                lemma_child_block(
                    *l,
                    if t.r_child is Some {
                        branch_first()
                    } else {
                        last_first()
                    },
                    if t.r_child is Some {
                        branch_rest()
                    } else {
                        last_rest()
                    },
                );
            },
        }
        match t.r_child {
            None => {},
            Some(r) => {
                lemma_child_block(*r, last_first(), last_rest());
            },
        }
        assert(rows =~= seq![v] + l_marked + r_marked);
        assert(t.render() == v + seq!['\n'] + rows_flat(l_marked) + rows_flat(r_marked));
        assert(seq![v].drop_first() =~= Seq::<Seq<char>>::empty());
        assert(rows_flat(Seq::<Seq<char>>::empty()) == Seq::<char>::empty());
        assert(rows_flat(seq![v]) =~= v + seq!['\n']);
        lemma_rows_flat_concat(seq![v], l_marked);
        lemma_rows_flat_concat(seq![v] + l_marked, r_marked);
        assert(t.render() =~= rows_flat(rows));
        assert forall|k: int| 0 <= k < rows.len() implies good_row(#[trigger] rows[k]) by {
            if k == 0 {
                assert(rows[k] == v);
            } else if k < 1 + l_marked.len() {
                assert(rows[k] == l_marked[k - 1]);
            } else {
                assert(rows[k] == r_marked[k - 1 - l_marked.len()]);
            }
        }
        assert(rows.len() >= 2);
        assert(good_row(rows.last()));
        lemma_rows_flat_join(rows);
        lemma_join_last(rows);
        lemma_trim_end_newline(join_char(rows, '\n'));
        assert(trim_end_spec(t.render()) == join_char(rows, '\n'));
        assert forall|k: int, j: int|
            0 <= k < rows.len() && 0 <= j < rows[k].len() implies #[trigger] rows[k][j]
            != '\n' by {
            assert(good_row(rows[k]));
        }
        lemma_split_join_rows(rows);
    }
}

/// Two trees that a reader of the rendering cannot tell apart: the same
/// values and the same shape, except that a sole child on the left and a
/// sole child on the right render identically and so count as the same.
pub open spec fn same_display(a: Node, b: Node) -> bool
    decreases a,
{
    &&& a.value@ == b.value@
    &&& (match (a.l_child, a.r_child, b.l_child, b.r_child) {
        (None, None, None, None) => true,
        (Some(al), Some(ar), Some(bl), Some(br)) => same_display(*al, *bl) && same_display(
            *ar,
            *br,
        ),
        (Some(ac), None, Some(bc), None) => same_display(*ac, *bc),
        (Some(ac), None, None, Some(bc)) => same_display(*ac, *bc),
        (None, Some(ac), Some(bc), None) => same_display(*ac, *bc),
        (None, Some(ac), None, Some(bc)) => same_display(*ac, *bc),
        _ => false,
    })
}

proof fn lemma_mark_rows_first_char(rows: Seq<Seq<char>>, first: Seq<char>, rest: Seq<char>)
    requires
        first.len() > 0,
        rest.len() > 0,
    ensures
        forall|i: int|
            0 <= i < rows.len() ==> (#[trigger] mark_rows(rows, first, rest)[i]).len() > 0
                && mark_rows(rows, first, rest)[i][0] == (if i == 0 {
                first[0]
            } else {
                rest[0]
            }),
{
    assert forall|i: int| 0 <= i < rows.len() implies (#[trigger] mark_rows(rows, first, rest)[i]).len()
        > 0 && mark_rows(rows, first, rest)[i][0] == (if i == 0 {
        first[0]
    } else {
        rest[0]
    }) by {
        let m = if i == 0 {
            first
        } else {
            rest
        };
        assert(mark_rows(rows, first, rest)[i] == m + rows[i]);
        assert((m + rows[i])[0] == m[0]);
    }
}

proof fn lemma_mark_rows_strip(ra: Seq<Seq<char>>, rb: Seq<Seq<char>>, first: Seq<char>, rest: Seq<char>)
    requires
        first.len() == rest.len(),
        mark_rows(ra, first, rest) == mark_rows(rb, first, rest),
    ensures
        ra == rb,
{
    assert(mark_rows(ra, first, rest).len() == ra.len());
    assert(mark_rows(rb, first, rest).len() == rb.len());
    assert(ra.len() == rb.len());
    assert forall|i: int| 0 <= i < ra.len() implies ra[i] == rb[i] by {
        let m = if i == 0 {
            first
        } else {
            rest
        };
        assert(mark_rows(ra, first, rest)[i] == m + ra[i]);
        assert(mark_rows(rb, first, rest)[i] == m + rb[i]);
        assert((m + ra[i]).skip(m.len() as int) =~= ra[i]);
        assert((m + rb[i]).skip(m.len() as int) =~= rb[i]);
    }
    assert(ra =~= rb);
}

/// Equal rows force equal display shape: a tree's rows determine its
/// values and its shape, up to the side of a sole child.
proof fn lemma_rows_same_display(a: Node, b: Node)
    requires
        a.tidy(),
        b.tidy(),
        a.logical_rows() == b.logical_rows(),
    ensures
        same_display(a, b),
    decreases a,
{
    lemma_marker_chars();
    let ra = a.logical_rows();
    let rb = b.logical_rows();
    lemma_logical_rows_head(a);
    lemma_logical_rows_head(b);
    assert(a.value@ == b.value@);
    let a_leaf = a.l_child is None && a.r_child is None;
    let b_leaf = b.l_child is None && b.r_child is None;
    // row counts settle leaf-ness
    match a.l_child {
        Some(l) => {
            lemma_logical_rows_head(*l);
        },
        None => {},
    }
    match a.r_child {
        Some(r) => {
            lemma_logical_rows_head(*r);
        },
        None => {},
    }
    match b.l_child {
        Some(l) => {
            lemma_logical_rows_head(*l);
        },
        None => {},
    }
    match b.r_child {
        Some(r) => {
            lemma_logical_rows_head(*r);
        },
        None => {},
    }
    if a_leaf {
        assert(ra.len() == 1);
        assert(b_leaf) by {
            if !b_leaf {
                assert(rb.len() >= 2);
            }
        }
        assert(same_display(a, b));
    } else {
        assert(ra.len() >= 2);
        assert(!b_leaf);
        // the second row's first character tells two children from one
        let a_both = a.l_child is Some && a.r_child is Some;
        let b_both = b.l_child is Some && b.r_child is Some;
        let la: Seq<Seq<char>> = match a.l_child {
            None => Seq::<Seq<char>>::empty(),
            Some(l) => l.logical_rows(),
        };
        let rra: Seq<Seq<char>> = match a.r_child {
            None => Seq::<Seq<char>>::empty(),
            Some(r) => r.logical_rows(),
        };
        let lb: Seq<Seq<char>> = match b.l_child {
            None => Seq::<Seq<char>>::empty(),
            Some(l) => l.logical_rows(),
        };
        let rrb: Seq<Seq<char>> = match b.r_child {
            None => Seq::<Seq<char>>::empty(),
            Some(r) => r.logical_rows(),
        };
        if a_both {
            let la_m = mark_rows(la, branch_first(), branch_rest());
            let ra_m = mark_rows(rra, last_first(), last_rest());
            lemma_mark_rows_first_char(la, branch_first(), branch_rest());
            lemma_mark_rows_first_char(rra, last_first(), last_rest());
            assert(ra =~= seq![a.value@] + la_m + ra_m);
            assert(ra[1] == la_m[0]);
            assert(ra[1][0] == '|');
        } else {
            // exactly one child
            let ca = if a.l_child is Some {
                la
            } else {
                rra
            };
            let ca_m = mark_rows(ca, last_first(), last_rest());
            lemma_mark_rows_first_char(ca, last_first(), last_rest());
            assert(ra =~= seq![a.value@] + ca_m);
            assert(ra[1] == ca_m[0]);
            assert(ra[1][0] == '`');
        }
        if b_both {
            let lb_m = mark_rows(lb, branch_first(), branch_rest());
            let rb_m = mark_rows(rrb, last_first(), last_rest());
            lemma_mark_rows_first_char(lb, branch_first(), branch_rest());
            lemma_mark_rows_first_char(rrb, last_first(), last_rest());
            assert(rb =~= seq![b.value@] + lb_m + rb_m);
            assert(rb[1] == lb_m[0]);
            assert(rb[1][0] == '|');
        } else {
            let cb = if b.l_child is Some {
                lb
            } else {
                rrb
            };
            let cb_m = mark_rows(cb, last_first(), last_rest());
            lemma_mark_rows_first_char(cb, last_first(), last_rest());
            assert(rb =~= seq![b.value@] + cb_m);
            assert(rb[1] == cb_m[0]);
            assert(rb[1][0] == '`');
        }
        assert(a_both == b_both);
        if a_both {
            let la_m = mark_rows(la, branch_first(), branch_rest());
            let ra_m = mark_rows(rra, last_first(), last_rest());
            let lb_m = mark_rows(lb, branch_first(), branch_rest());
            let rb_m = mark_rows(rrb, last_first(), last_rest());
            lemma_mark_rows_first_char(la, branch_first(), branch_rest());
            lemma_mark_rows_first_char(rra, last_first(), last_rest());
            lemma_mark_rows_first_char(lb, branch_first(), branch_rest());
            lemma_mark_rows_first_char(rrb, last_first(), last_rest());
            let tail_a = ra.subrange(1, ra.len() as int);
            let tail_b = rb.subrange(1, rb.len() as int);
            assert(ra =~= seq![a.value@] + la_m + ra_m);
            assert(rb =~= seq![b.value@] + lb_m + rb_m);
            assert(tail_a =~= la_m + ra_m);
            assert(tail_b =~= lb_m + rb_m);
            assert(tail_a == tail_b);
            if la_m.len() < lb_m.len() {
                let k = la_m.len() as int;
                assert(tail_a[k] == ra_m[0]);
                assert(ra_m[0][0] == '`');
                assert(tail_b[k] == lb_m[k]);
                assert(lb_m[k][0] == '|');
                assert(false);
            }
            if lb_m.len() < la_m.len() {
                let k = lb_m.len() as int;
                assert(tail_b[k] == rb_m[0]);
                assert(rb_m[0][0] == '`');
                assert(tail_a[k] == la_m[k]);
                assert(la_m[k][0] == '|');
                assert(false);
            }
            assert(la_m.len() == lb_m.len());
            assert forall|i: int| 0 <= i < la_m.len() implies la_m[i] == lb_m[i] by {
                assert(la_m[i] == tail_a[i]);
                assert(lb_m[i] == tail_b[i]);
            }
            assert(la_m =~= lb_m);
            assert forall|i: int| 0 <= i < ra_m.len() implies ra_m[i] == rb_m[i] by {
                assert(ra_m[i] == tail_a[la_m.len() + i]);
                assert(rb_m[i] == tail_b[lb_m.len() + i]);
            }
            assert(ra_m =~= rb_m);
            lemma_mark_rows_strip(la, lb, branch_first(), branch_rest());
            lemma_mark_rows_strip(rra, rrb, last_first(), last_rest());
            match (a.l_child, a.r_child, b.l_child, b.r_child) {
                (Some(al), Some(ar), Some(bl), Some(br)) => {
                    lemma_rows_same_display(*al, *bl);
                    lemma_rows_same_display(*ar, *br);
                },
                _ => {
                    assert(false);
                },
            }
            assert(same_display(a, b));
        } else {
            let ca = if a.l_child is Some {
                la
            } else {
                rra
            };
            let cb = if b.l_child is Some {
                lb
            } else {
                rrb
            };
            let ca_m = mark_rows(ca, last_first(), last_rest());
            let cb_m = mark_rows(cb, last_first(), last_rest());
            assert(ra =~= seq![a.value@] + ca_m);
            assert(rb =~= seq![b.value@] + cb_m);
            assert(ca_m.len() == ra.len() - 1);
            assert(cb_m.len() == rb.len() - 1);
            assert forall|i: int| 0 <= i < ca_m.len() implies ca_m[i] == cb_m[i] by {
                assert(ca_m[i] == ra[i + 1]);
                assert(cb_m[i] == rb[i + 1]);
            }
            assert(ca_m =~= cb_m);
            lemma_mark_rows_strip(ca, cb, last_first(), last_rest());
            match (a.l_child, a.r_child, b.l_child, b.r_child) {
                (Some(ac), None, Some(bc), None) => {
                    lemma_rows_same_display(*ac, *bc);
                },
                (Some(ac), None, None, Some(bc)) => {
                    lemma_rows_same_display(*ac, *bc);
                },
                (None, Some(ac), Some(bc), None) => {
                    lemma_rows_same_display(*ac, *bc);
                },
                (None, Some(ac), None, Some(bc)) => {
                    lemma_rows_same_display(*ac, *bc);
                },
                _ => {
                    assert(false);
                },
            }
            assert(same_display(a, b));
        }
    }
}

/// Rendering round-trip: the rendered text of a tidy tree, re-parsed line
/// by line, recovers the tree's values and shape — two tidy trees with
/// the same rendering display the same tree, a sole child's side being
/// the one thing the markers do not record.
pub proof fn lemma_rendering_round_trip(a: Node, b: Node)
    requires
        a.tidy(),
        b.tidy(),
        a.render() == b.render(),
    ensures
        same_display(a, b),
{
    lemma_render_rows(a);
    lemma_render_rows(b);
    lemma_rows_same_display(a, b);
}

fn append_block(out: &mut String, rows: &Vec<String>, first: &str, rest: &str)
    ensures
        final (out)@ == old(out)@ + marked_block(rows.deep_view(), first@, rest@),
{
    proof {
        reveal_strlit("\n");
        assert("\n"@ =~= seq!['\n']);
    }
    let ghost dv = rows.deep_view();
    let ghost target = old(out)@ + marked_block(dv, first@, rest@);
    let mut i: usize = 0;
    proof {
        assert(dv.skip(0) =~= dv);
    }
    while i < rows.len()
        invariant
            i <= rows.len(),
            dv == rows.deep_view(),
            dv.len() == rows.len(),
            "\n"@ == seq!['\n'],
            target == old(out)@ + marked_block(dv, first@, rest@),
            target == out@ + marked_block(
                dv.skip(i as int),
                if i == 0 {
                    first@
                } else {
                    rest@
                },
                rest@,
            ),
        decreases rows.len() - i,
    {
        let ghost marker = if i == 0 {
            first@
        } else {
            rest@
        };
        if i == 0 {
            out.append(first);
        } else {
            out.append(rest);
        }
        out.append(rows[i].as_str());
        out.append("\n");
        proof {
            assert(dv[i as int] == rows@[i as int]@);
            assert(dv.skip(i as int).drop_first() =~= dv.skip(i + 1));
            assert(marked_block(dv.skip(i as int), marker, rest@) == marker + dv[i as int]
                + seq!['\n'] + marked_block(dv.skip(i + 1), rest@, rest@));
        }
        i = i + 1;
    }
    proof {
        assert(dv.skip(rows.len() as int) =~= Seq::<Seq<char>>::empty());
    }
}

} // verus!
