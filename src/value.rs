use vstd::prelude::*;

verus! {

/// The mathematical shape of a document value.
pub ghost enum Tree {
    Null,
    Bool(bool),
    Number(Seq<char>),
    Str(Seq<char>),
    Array(Seq<Tree>),
    Object(Seq<(Seq<char>, Tree)>),
}

/// A loaded document value. Numbers are held in their textual form.
pub enum Node {
    Null,
    Bool(bool),
    Number(String),
    Str(String),
    Array(Vec<Node>),
    Object(Vec<(String, Node)>),
}

/// The trees of the first `n` items of `a`.
pub open spec fn items_view(a: Vec<Node>, n: nat) -> Seq<Tree>
    decreases a, n,
{
    if n == 0 || n > a.len() {
        Seq::empty()
    } else {
        items_view(a, (n - 1) as nat).push(a[n - 1].view_tree())
    }
}

/// The entries of the first `n` pairs of `e`.
pub open spec fn entries_view(e: Vec<(String, Node)>, n: nat) -> Seq<(Seq<char>, Tree)>
    decreases e, n,
{
    if n == 0 || n > e.len() {
        Seq::empty()
    } else {
        entries_view(e, (n - 1) as nat).push((e[n - 1].0@, e[n - 1].1.view_tree()))
    }
}

/// Whether `i` is the first index of `e` whose key is `k`.
pub open spec fn is_first_key(e: Seq<(Seq<char>, Tree)>, k: Seq<char>, i: int) -> bool {
    &&& 0 <= i < e.len()
    &&& e[i].0 == k
    &&& forall|j: int| 0 <= j < i ==> e[j].0 != k
}

impl Node {
    /// The tree this value denotes.
    pub open spec fn view_tree(self) -> Tree
        decreases self, 0nat,
    {
        match self {
            Node::Null => Tree::Null,
            Node::Bool(b) => Tree::Bool(b),
            Node::Number(s) => Tree::Number(s@),
            Node::Str(s) => Tree::Str(s@),
            Node::Array(a) => Tree::Array(items_view(a, a.len() as nat)),
            Node::Object(e) => Tree::Object(entries_view(e, e.len() as nat)),
        }
    }
}

impl View for Node {
    type V = Tree;

    open spec fn view(&self) -> Tree {
        self.view_tree()
    }
}

} // verus!

verus! {

/// The trees of the first `n` items are those of each item in turn.
pub proof fn lemma_items_view(a: Vec<Node>, n: nat)
    requires
        n <= a.len(),
    ensures
        items_view(a, n).len() == n,
        forall|j: int| 0 <= j < n ==> #[trigger] items_view(a, n)[j] == a[j]@,
    decreases n,
{
    if n > 0 {
        lemma_items_view(a, (n - 1) as nat);
    }
}

/// The entries of the first `n` pairs are those of each pair in turn.
pub proof fn lemma_entries_view(e: Vec<(String, Node)>, n: nat)
    requires
        n <= e.len(),
    ensures
        entries_view(e, n).len() == n,
        forall|j: int| 0 <= j < n ==> #[trigger] entries_view(e, n)[j] == (e[j].0@, e[j].1@),
    decreases n,
{
    if n > 0 {
        lemma_entries_view(e, (n - 1) as nat);
    }
}

} // verus!

verus! {

/// No two entries of an object share a key.
pub open spec fn keys_unique(e: Seq<(Seq<char>, Tree)>) -> bool {
    forall|i: int, j: int|
        0 <= i < e.len() && 0 <= j < e.len() && i != j ==> #[trigger] e[i].0 != #[trigger] e[j].0
}

/// Every object in `t` holds each key once.
pub open spec fn wf_tree(t: Tree) -> bool
    decreases t, 0nat,
{
    match t {
        Tree::Array(a) => wf_items(a, a.len() as nat),
        Tree::Object(e) => keys_unique(e) && wf_entries(e, e.len() as nat),
        _ => true,
    }
}

pub open spec fn wf_items(a: Seq<Tree>, n: nat) -> bool
    decreases a, n,
{
    n == 0 || n > a.len() || (wf_items(a, (n - 1) as nat) && wf_tree(a[n - 1]))
}

pub open spec fn wf_entries(e: Seq<(Seq<char>, Tree)>, n: nat) -> bool
    decreases e, n,
{
    n == 0 || n > e.len() || (wf_entries(e, (n - 1) as nat) && wf_tree(e[n - 1].1))
}

/// The number of scalars in `t`.
pub open spec fn scalar_count(t: Tree) -> nat
    decreases t, 0nat,
{
    match t {
        Tree::Array(a) => items_count(a, a.len() as nat),
        Tree::Object(e) => entries_count(e, e.len() as nat),
        _ => 1,
    }
}

pub open spec fn items_count(a: Seq<Tree>, n: nat) -> nat
    decreases a, n,
{
    if n == 0 || n > a.len() {
        0
    } else {
        items_count(a, (n - 1) as nat) + scalar_count(a[n - 1])
    }
}

pub open spec fn entries_count(e: Seq<(Seq<char>, Tree)>, n: nat) -> nat
    decreases e, n,
{
    if n == 0 || n > e.len() {
        0
    } else {
        entries_count(e, (n - 1) as nat) + scalar_count(e[n - 1].1)
    }
}

} // verus!

verus! {

pub proof fn lemma_wf_items_all(a: Seq<Tree>, n: nat)
    requires
        n <= a.len(),
    ensures
        wf_items(a, n) <==> forall|i: int| 0 <= i < n ==> wf_tree(#[trigger] a[i]),
    decreases n,
{
    if n > 0 {
        lemma_wf_items_all(a, (n - 1) as nat);
    }
}

pub proof fn lemma_wf_entries_all(e: Seq<(Seq<char>, Tree)>, n: nat)
    requires
        n <= e.len(),
    ensures
        wf_entries(e, n) <==> forall|i: int| 0 <= i < n ==> wf_tree(#[trigger] e[i].1),
    decreases n,
{
    if n > 0 {
        lemma_wf_entries_all(e, (n - 1) as nat);
    }
}

} // verus!
