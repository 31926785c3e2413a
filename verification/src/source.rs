//! Rows, nodes and the changes that a table source pushes and fetches.
use vstd::prelude::*;

use std::cmp::Ordering;

use crate::json::{entries_get, f64_order_key_exec, int_of_u64, ix, JsonMap, JsonValue, JsonView};

verus! {

/// A row: column name to value.
pub type Row = JsonMap;

/// The mathematical value of a row.
pub type RowView = Seq<(Seq<char>, JsonView)>;

/// A row together with the rows of its relationships, by relationship name.
pub struct Node {
    pub row: Row,
    pub relationships: Vec<(String, Vec<Node>)>,
}

pub struct NodeView {
    pub row: RowView,
    pub relationships: Seq<(Seq<char>, Seq<NodeView>)>,
}

pub open spec fn node_view(n: Node) -> NodeView
    decreases n,
{
    NodeView { row: n.row@, relationships: rels_view(n.relationships@) }
}

pub open spec fn rels_view(rs: Seq<(String, Vec<Node>)>) -> Seq<(Seq<char>, Seq<NodeView>)>
    decreases rs,
{
    if rs.len() == 0 {
        Seq::empty()
    } else {
        seq![(rs[0].0@, nodes_view(rs[0].1@))] + rels_view(rs.drop_first())
    }
}

pub open spec fn nodes_view(ns: Seq<Node>) -> Seq<NodeView>
    decreases ns,
{
    if ns.len() == 0 {
        Seq::empty()
    } else {
        seq![node_view(ns[0])] + nodes_view(ns.drop_first())
    }
}

impl View for Node {
    type V = NodeView;

    open spec fn view(&self) -> NodeView {
        node_view(*self)
    }
}

pub proof fn lemma_nodes_view(ns: Seq<Node>)
    ensures
        nodes_view(ns).len() == ns.len(),
        forall|i: int| 0 <= i < ns.len() ==> #[trigger] nodes_view(ns)[i] == node_view(ns[i]),
    decreases ns.len(),
{
    if ns.len() > 0 {
        lemma_nodes_view(ns.drop_first());
        assert forall|i: int| 0 <= i < ns.len() implies #[trigger] nodes_view(ns)[i] == node_view(
            ns[i],
        ) by {
            if i > 0 {
                assert(ns.drop_first()[i - 1] == ns[i]);
            }
        }
    }
}

pub proof fn lemma_rels_view(rs: Seq<(String, Vec<Node>)>)
    ensures
        rels_view(rs).len() == rs.len(),
        forall|i: int|
            0 <= i < rs.len() ==> #[trigger] rels_view(rs)[i] == (rs[i].0@, nodes_view(rs[i].1@)),
    decreases rs.len(),
{
    if rs.len() > 0 {
        lemma_rels_view(rs.drop_first());
        assert forall|i: int| 0 <= i < rs.len() implies #[trigger] rels_view(rs)[i] == (
            rs[i].0@,
            nodes_view(rs[i].1@),
        ) by {
            if i > 0 {
                assert(rs.drop_first()[i - 1] == rs[i]);
            }
        }
    }
}

impl Node {
    /// A node holding `row` and no relationships.
    pub fn leaf(row: Row) -> (n: Node)
        ensures
            n@.row == row@,
            n@.relationships.len() == 0,
    {
        let n = Node { row, relationships: Vec::new() };
        assert(rels_view(n.relationships@) =~= Seq::<(Seq<char>, Seq<NodeView>)>::empty());
        n
    }
}

#[derive(PartialEq, Eq, Structural, Clone, Copy, Debug)]
pub enum SourceChangeType {
    Add,
    Remove,
    Edit,
}

/// A change to a table's rows.
pub enum SourceChange {
    Add(Row),
    Remove(Row),
    Edit { row: Row, old_row: Row },
}

pub enum SourceChangeView {
    Add(RowView),
    Remove(RowView),
    Edit { row: RowView, old_row: RowView },
}

impl View for SourceChange {
    type V = SourceChangeView;

    open spec fn view(&self) -> SourceChangeView {
        match *self {
            SourceChange::Add(r) => SourceChangeView::Add(r@),
            SourceChange::Remove(r) => SourceChangeView::Remove(r@),
            SourceChange::Edit { row, old_row } => SourceChangeView::Edit {
                row: row@,
                old_row: old_row@,
            },
        }
    }
}

impl SourceChangeView {
    pub open spec fn change_type(self) -> SourceChangeType {
        match self {
            SourceChangeView::Add(_) => SourceChangeType::Add,
            SourceChangeView::Remove(_) => SourceChangeType::Remove,
            SourceChangeView::Edit { .. } => SourceChangeType::Edit,
        }
    }

    /// The row the change is about: the new row of an edit.
    pub open spec fn row(self) -> RowView {
        match self {
            SourceChangeView::Add(r) => r,
            SourceChangeView::Remove(r) => r,
            SourceChangeView::Edit { row, .. } => row,
        }
    }
}

impl SourceChange {
    pub fn change_type(&self) -> (t: SourceChangeType)
        ensures
            t == self@.change_type(),
    {
        match self {
            SourceChange::Add(_) => SourceChangeType::Add,
            SourceChange::Remove(_) => SourceChangeType::Remove,
            SourceChange::Edit { .. } => SourceChangeType::Edit,
        }
    }

    pub fn row(&self) -> (r: &Row)
        ensures
            r@ == self@.row(),
    {
        match self {
            SourceChange::Add(r) => r,
            SourceChange::Remove(r) => r,
            SourceChange::Edit { row, .. } => row,
        }
    }

    pub fn duplicate(&self) -> (c: SourceChange)
        ensures
            c@ == self@,
    {
        match self {
            SourceChange::Add(r) => SourceChange::Add(r.duplicate()),
            SourceChange::Remove(r) => SourceChange::Remove(r.duplicate()),
            SourceChange::Edit { row, old_row } => SourceChange::Edit {
                row: row.duplicate(),
                old_row: old_row.duplicate(),
            },
        }
    }
}

/// A change pushed through operators: rows travel as nodes.
pub enum Change {
    Add(Node),
    Remove(Node),
    Child { node: Node, child: Box<ChildChange> },
    Edit { node: Node, old_node: Node },
}

pub struct ChildChange {
    pub relationship_name: String,
    pub change: Change,
}

pub enum ChangeView {
    Add(NodeView),
    Remove(NodeView),
    Child { node: NodeView, relationship_name: Seq<char>, change: Box<ChangeView> },
    Edit { node: NodeView, old_node: NodeView },
}

pub open spec fn change_view(c: Change) -> ChangeView
    decreases c,
{
    match c {
        Change::Add(n) => ChangeView::Add(n@),
        Change::Remove(n) => ChangeView::Remove(n@),
        Change::Child { node, child } => ChangeView::Child {
            node: node@,
            relationship_name: child.relationship_name@,
            change: Box::new(change_view(child.change)),
        },
        Change::Edit { node, old_node } => ChangeView::Edit { node: node@, old_node: old_node@ },
    }
}

impl View for Change {
    type V = ChangeView;

    open spec fn view(&self) -> ChangeView {
        change_view(*self)
    }
}

impl ChangeView {
    pub open spec fn node(self) -> NodeView {
        match self {
            ChangeView::Add(n) => n,
            ChangeView::Remove(n) => n,
            ChangeView::Child { node, .. } => node,
            ChangeView::Edit { node, .. } => node,
        }
    }
}

impl Change {
    pub fn node(&self) -> (n: &Node)
        ensures
            n@ == self@.node(),
    {
        match self {
            Change::Add(n) => n,
            Change::Remove(n) => n,
            Change::Child { node, .. } => node,
            Change::Edit { node, .. } => node,
        }
    }
}

/// A change at a given push epoch, visible to fetches of connections that
/// have seen that epoch.
pub struct Overlay {
    pub epoch: u64,
    pub change: SourceChange,
}

/// Rows to add to and to remove from a fetch's output.
pub struct Overlays {
    pub add: Option<Row>,
    pub remove: Option<Row>,
}

pub struct OverlaysView {
    pub add: Option<RowView>,
    pub remove: Option<RowView>,
}

pub open spec fn opt_row_view(r: Option<Row>) -> Option<RowView> {
    match r {
        Some(x) => Some(x@),
        None => None,
    }
}

impl View for Overlays {
    type V = OverlaysView;

    open spec fn view(&self) -> OverlaysView {
        OverlaysView { add: opt_row_view(self.add), remove: opt_row_view(self.remove) }
    }
}

impl Overlays {
    /// No row to add, none to remove.
    pub fn default() -> (o: Overlays)
        ensures
            o@.add is None,
            o@.remove is None,
    {
        Overlays { add: None, remove: None }
    }
}

/// Restricts a fetch to rows whose column `key` holds `value`.
pub struct FetchConstraint {
    pub key: String,
    pub value: JsonValue,
}

impl FetchConstraint {
    pub fn single(key: String, value: JsonValue) -> (c: FetchConstraint)
        ensures
            c.key@ == key@,
            c.value@ == value@,
    {
        FetchConstraint { key, value }
    }
}

/// Where a fetch starts: at or after `row` in the sort order.
pub struct FetchStart {
    pub row: Row,
    pub basis: String,
}

pub struct FetchRequest {
    pub constraint: Option<FetchConstraint>,
    pub start: Option<FetchStart>,
    pub reverse: bool,
}

impl FetchRequest {
    /// A request with no constraint, no start, in forward order.
    pub fn default() -> (r: FetchRequest)
        ensures
            r.constraint is None,
            r.start is None,
            !r.reverse,
    {
        FetchRequest { constraint: None, start: None, reverse: false }
    }
}

#[derive(PartialEq, Eq, Structural, Clone, Copy, Debug)]
pub enum SortDirection {
    Asc,
    Desc,
}

pub struct SortSpec {
    pub field: String,
    pub direction: SortDirection,
}

/// Lexicographic order of character sequences, characters by code point.
pub open spec fn char_seq_order(a: Seq<char>, b: Seq<char>) -> Ordering
    decreases a.len(),
{
    if a.len() == 0 {
        if b.len() == 0 {
            Ordering::Equal
        } else {
            Ordering::Less
        }
    } else if b.len() == 0 {
        Ordering::Greater
    } else if a[0] < b[0] {
        Ordering::Less
    } else if a[0] > b[0] {
        Ordering::Greater
    } else {
        char_seq_order(a.drop_first(), b.drop_first())
    }
}

/// `Ord::cmp` on `str`: std orders strings lexicographically by their
/// UTF-8 bytes, which orders them as their sequences of code points.
#[verifier::external_body]
fn str_order(a: &str, b: &str) -> (r: Ordering)
    ensures
        r == char_seq_order(a@, b@),
{
    a.cmp(b)
}

pub open spec fn int_order(a: int, b: int) -> Ordering {
    if a < b {
        Ordering::Less
    } else if a == b {
        Ordering::Equal
    } else {
        Ordering::Greater
    }
}

pub open spec fn reversed(o: Ordering) -> Ordering {
    match o {
        Ordering::Less => Ordering::Greater,
        Ordering::Equal => Ordering::Equal,
        Ordering::Greater => Ordering::Less,
    }
}

/// Rank of a value's type in the order of values: null, booleans, numbers,
/// strings, then everything else.
pub open spec fn type_rank(v: JsonView) -> int {
    match v {
        JsonView::Null => 0,
        JsonView::Bool(_) => 1,
        JsonView::Number(_) => 2,
        JsonView::Str(_) => 3,
        _ => 4,
    }
}

pub open spec fn bool_rank(b: bool) -> int {
    if b {
        1
    } else {
        0
    }
}

/// The order of values used for sorting rows: by type rank, then within a
/// type: `false < true`, numbers as floats, strings lexicographically;
/// arrays and objects are all equal.
pub open spec fn value_order(a: JsonView, b: JsonView) -> Ordering {
    if type_rank(a) != type_rank(b) {
        int_order(type_rank(a), type_rank(b))
    } else {
        match (a, b) {
            (JsonView::Bool(x), JsonView::Bool(y)) => int_order(bool_rank(x), bool_rank(y)),
            (JsonView::Number(x), JsonView::Number(y)) => int_order(x.order_key(), y.order_key()),
            (JsonView::Str(x), JsonView::Str(y)) => char_seq_order(x, y),
            _ => Ordering::Equal,
        }
    }
}

/// A row's value for a column, null when the column is absent.
pub open spec fn field_value(r: RowView, f: Seq<char>) -> JsonView {
    match entries_get(r, f) {
        Some(v) => v,
        None => JsonView::Null,
    }
}

/// Rows ordered by the sort columns in turn; a descending column reverses
/// that column's order.
pub open spec fn row_order(a: RowView, b: RowView, sort: Seq<SortSpec>) -> Ordering
    decreases sort.len(),
{
    if sort.len() == 0 {
        Ordering::Equal
    } else {
        let c = value_order(field_value(a, sort[0].field@), field_value(b, sort[0].field@));
        if c != Ordering::Equal {
            match sort[0].direction {
                SortDirection::Asc => c,
                SortDirection::Desc => reversed(c),
            }
        } else {
            row_order(a, b, sort.drop_first())
        }
    }
}

fn type_rank_exec(v: &JsonValue) -> (r: u8)
    ensures
        r == type_rank(v@),
{
    match v {
        JsonValue::Null => 0,
        JsonValue::Bool(_) => 1,
        JsonValue::Number(_) => 2,
        JsonValue::String(_) => 3,
        _ => 4,
    }
}

fn u64_order(a: u64, b: u64) -> (r: Ordering)
    ensures
        r == int_order(int_of_u64(a), int_of_u64(b)),
{
    if a < b {
        Ordering::Less
    } else if a == b {
        Ordering::Equal
    } else {
        Ordering::Greater
    }
}

/// Compares two values in the order rows are sorted by.
pub fn compare_json_values(a: &JsonValue, b: &JsonValue) -> (r: Ordering)
    ensures
        r == value_order(a@, b@),
{
    let ta = type_rank_exec(a);
    let tb = type_rank_exec(b);
    if ta != tb {
        return if ta < tb {
            Ordering::Less
        } else {
            Ordering::Greater
        };
    }
    match (a, b) {
        (JsonValue::Bool(x), JsonValue::Bool(y)) => {
            let rx: u64 = if *x { 1 } else { 0 };
            let ry: u64 = if *y { 1 } else { 0 };
            u64_order(rx, ry)
        },
        (JsonValue::Number(x), JsonValue::Number(y)) => u64_order(
            f64_order_key_exec(x.f64_bits),
            f64_order_key_exec(y.f64_bits),
        ),
        (JsonValue::String(x), JsonValue::String(y)) => str_order(x.as_str(), y.as_str()),
        _ => Ordering::Equal,
    }
}

/// A row's value for a column, null when the column is absent.
pub fn field_value_exec(r: &Row, f: &str) -> (v: JsonValue)
    ensures
        v@ == field_value(r@, f@),
{
    match r.get(f) {
        Some(v) => v.duplicate(),
        None => JsonValue::Null,
    }
}

/// Compares two rows by the sort columns.
pub fn compare_rows(a: &Row, b: &Row, sort: &[SortSpec]) -> (r: Ordering)
    ensures
        r == row_order(a@, b@, sort@),
{
    let mut i: usize = 0;
    assert(sort@.skip(0) =~= sort@);
    while i < sort.len()
        invariant
            i <= sort@.len(),
            row_order(a@, b@, sort@) == row_order(a@, b@, sort@.skip(ix(i))),
        decreases sort@.len() - i,
    {
        assert(sort@.skip(ix(i)).drop_first() =~= sort@.skip(i + 1));
        assert(sort@.skip(ix(i))[0] == sort@[ix(i)]);
        let av = field_value_exec(a, sort[i].field.as_str());
        let bv = field_value_exec(b, sort[i].field.as_str());
        let c = compare_json_values(&av, &bv);
        match c {
            Ordering::Equal => {},
            _ => {
                return match sort[i].direction {
                    SortDirection::Asc => c,
                    SortDirection::Desc => match c {
                        Ordering::Less => Ordering::Greater,
                        Ordering::Equal => Ordering::Equal,
                        Ordering::Greater => Ordering::Less,
                    },
                };
            },
        }
        i = i + 1;
    }
    Ordering::Equal
}


/// `a` sorts before `b` as strings.
pub fn str_less(a: &str, b: &str) -> (r: bool)
    ensures
        r == (char_seq_order(a@, b@) == Ordering::Less),
{
    match str_order(a, b) {
        Ordering::Less => true,
        Ordering::Equal => false,
        Ordering::Greater => false,
    }
}

// --- Laws of the order of values and rows ---

/// `a` sorts no later than `b`.
pub open spec fn not_after(o: Ordering) -> bool {
    o != Ordering::Greater
}

/// Lexicographic order is reflexive.
pub proof fn lemma_char_seq_order_reflexive(a: Seq<char>)
    ensures
        char_seq_order(a, a) == Ordering::Equal,
    decreases a.len(),
{
    if a.len() > 0 {
        lemma_char_seq_order_reflexive(a.drop_first());
    }
}

/// Swapping the operands of lexicographic order reverses the result.
pub proof fn lemma_char_seq_order_antisymmetric(a: Seq<char>, b: Seq<char>)
    ensures
        char_seq_order(b, a) == reversed(char_seq_order(a, b)),
    decreases a.len(),
{
    if a.len() > 0 && b.len() > 0 {
        lemma_char_seq_order_antisymmetric(a.drop_first(), b.drop_first());
    }
}

/// Lexicographic order finds two sequences equal only when they are.
pub proof fn lemma_char_seq_order_equal(a: Seq<char>, b: Seq<char>)
    ensures
        char_seq_order(a, b) == Ordering::Equal <==> a == b,
    decreases a.len(),
{
    if a == b {
        lemma_char_seq_order_reflexive(a);
    } else if a.len() > 0 && b.len() > 0 {
        lemma_char_seq_order_equal(a.drop_first(), b.drop_first());
        if char_seq_order(a, b) == Ordering::Equal {
            assert(a =~= b) by {
                assert forall|i: int| 0 <= i < a.len() implies a[i] == b[i] by {
                    if i > 0 {
                        assert(a[i] == a.drop_first()[i - 1]);
                        assert(b[i] == b.drop_first()[i - 1]);
                    }
                }
            }
        }
    }
}

/// Lexicographic order is transitive.
pub proof fn lemma_char_seq_order_transitive(a: Seq<char>, b: Seq<char>, c: Seq<char>)
    requires
        not_after(char_seq_order(a, b)),
        not_after(char_seq_order(b, c)),
    ensures
        not_after(char_seq_order(a, c)),
    decreases a.len(),
{
    if a.len() > 0 && b.len() > 0 && c.len() > 0 && a[0] == b[0] && b[0] == c[0] {
        lemma_char_seq_order_transitive(a.drop_first(), b.drop_first(), c.drop_first());
    }
}

proof fn lemma_int_order(a: int, b: int, c: int)
    ensures
        int_order(a, a) == Ordering::Equal,
        int_order(b, a) == reversed(int_order(a, b)),
        not_after(int_order(a, b)) && not_after(int_order(b, c)) ==> not_after(int_order(a, c)),
{
}

/// Every value sorts equal to itself.
pub proof fn lemma_value_order_reflexive(a: JsonView)
    ensures
        value_order(a, a) == Ordering::Equal,
{
    if let JsonView::Str(x) = a {
        lemma_char_seq_order_reflexive(x);
    }
}

/// Swapping the values compared reverses the result.
pub proof fn lemma_value_order_antisymmetric(a: JsonView, b: JsonView)
    ensures
        value_order(b, a) == reversed(value_order(a, b)),
{
    lemma_int_order(type_rank(a), type_rank(b), 0);
    match (a, b) {
        (JsonView::Bool(x), JsonView::Bool(y)) => lemma_int_order(bool_rank(x), bool_rank(y), 0),
        (JsonView::Number(x), JsonView::Number(y)) => lemma_int_order(x.order_key(), y.order_key(), 0),
        (JsonView::Str(x), JsonView::Str(y)) => lemma_char_seq_order_antisymmetric(x, y),
        _ => {},
    }
}

/// The order of values is transitive.
pub proof fn lemma_value_order_transitive(a: JsonView, b: JsonView, c: JsonView)
    requires
        not_after(value_order(a, b)),
        not_after(value_order(b, c)),
    ensures
        not_after(value_order(a, c)),
{
    lemma_int_order(type_rank(a), type_rank(b), type_rank(c));
    lemma_int_order(type_rank(a), type_rank(c), 0);
    if type_rank(a) == type_rank(b) && type_rank(b) == type_rank(c) {
        match (a, b, c) {
            (JsonView::Bool(x), JsonView::Bool(y), JsonView::Bool(z)) => lemma_int_order(
                bool_rank(x),
                bool_rank(y),
                bool_rank(z),
            ),
            (JsonView::Number(x), JsonView::Number(y), JsonView::Number(z)) => lemma_int_order(
                x.order_key(),
                y.order_key(),
                z.order_key(),
            ),
            (JsonView::Str(x), JsonView::Str(y), JsonView::Str(z)) => lemma_char_seq_order_transitive(x, y, z),
            _ => {},
        }
    }
}

proof fn lemma_value_order_trans_if(a: JsonView, b: JsonView, c: JsonView)
    ensures
        not_after(value_order(a, b)) && not_after(value_order(b, c)) ==> not_after(value_order(a, c)),
{
    if not_after(value_order(a, b)) && not_after(value_order(b, c)) {
        lemma_value_order_transitive(a, b, c);
    }
}

proof fn lemma_value_order_facts(a: JsonView, b: JsonView, c: JsonView)
    ensures
        value_order(b, a) == reversed(value_order(a, b)),
        value_order(c, b) == reversed(value_order(b, c)),
        value_order(c, a) == reversed(value_order(a, c)),
        not_after(value_order(a, b)) && not_after(value_order(b, c)) ==> not_after(value_order(a, c)),
        not_after(value_order(c, b)) && not_after(value_order(b, a)) ==> not_after(value_order(c, a)),
        not_after(value_order(b, a)) && not_after(value_order(a, c)) ==> not_after(value_order(b, c)),
        not_after(value_order(c, a)) && not_after(value_order(a, b)) ==> not_after(value_order(c, b)),
        not_after(value_order(a, c)) && not_after(value_order(c, b)) ==> not_after(value_order(a, b)),
        not_after(value_order(b, c)) && not_after(value_order(c, a)) ==> not_after(value_order(b, a)),
{
    lemma_value_order_antisymmetric(a, b);
    lemma_value_order_antisymmetric(b, c);
    lemma_value_order_antisymmetric(a, c);
    lemma_value_order_trans_if(a, b, c);
    lemma_value_order_trans_if(c, b, a);
    lemma_value_order_trans_if(b, a, c);
    lemma_value_order_trans_if(c, a, b);
    lemma_value_order_trans_if(a, c, b);
    lemma_value_order_trans_if(b, c, a);
}

/// Every row sorts equal to itself, whatever the sort.
pub proof fn lemma_row_order_reflexive(a: RowView, sort: Seq<SortSpec>)
    ensures
        row_order(a, a, sort) == Ordering::Equal,
    decreases sort.len(),
{
    if sort.len() > 0 {
        lemma_value_order_reflexive(field_value(a, sort[0].field@));
        lemma_row_order_reflexive(a, sort.drop_first());
    }
}

/// Swapping the rows compared reverses the result.
pub proof fn lemma_row_order_antisymmetric(a: RowView, b: RowView, sort: Seq<SortSpec>)
    ensures
        row_order(b, a, sort) == reversed(row_order(a, b, sort)),
    decreases sort.len(),
{
    if sort.len() > 0 {
        lemma_value_order_antisymmetric(field_value(a, sort[0].field@), field_value(b, sort[0].field@));
        lemma_row_order_antisymmetric(a, b, sort.drop_first());
    }
}

/// The order of rows is transitive, whatever the sort.
pub proof fn lemma_row_order_transitive(a: RowView, b: RowView, c: RowView, sort: Seq<SortSpec>)
    requires
        not_after(row_order(a, b, sort)),
        not_after(row_order(b, c, sort)),
    ensures
        not_after(row_order(a, c, sort)),
    decreases sort.len(),
{
    if sort.len() > 0 {
        let f = sort[0].field@;
        lemma_value_order_facts(field_value(a, f), field_value(b, f), field_value(c, f));
        lemma_row_order_antisymmetric(a, b, sort.drop_first());
        lemma_row_order_antisymmetric(b, c, sort.drop_first());
        if value_order(field_value(a, f), field_value(b, f)) == Ordering::Equal && value_order(
            field_value(b, f),
            field_value(c, f),
        ) == Ordering::Equal {
            lemma_row_order_transitive(a, b, c, sort.drop_first());
        }
    }
}

} // verus!
