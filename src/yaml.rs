use vstd::prelude::*;
use crate::decimal::{int_text, render_i64};
use crate::error::ParseError;
use crate::flatten::scalar_text;
use crate::value::{
    entries_view, is_first_key, items_view, keys_unique, lemma_entries_view, lemma_items_view,
    lemma_wf_entries_all, lemma_wf_items_all, wf_tree, Node, Tree,
};

verus! {

/// A node of a parsed YAML document.
pub enum YamlNode {
    /// A float, kept in the text it was written in.
    Real(String),
    Integer(i64),
    String(String),
    Boolean(bool),
    Array(Vec<YamlNode>),
    /// A mapping, its entries in document order.
    Hash(Vec<(YamlNode, YamlNode)>),
    Alias(usize),
    Null,
    BadValue,
}

pub open spec fn non_key_message() -> Seq<char> {
    "Non-stringable key"@
}

pub open spec fn unsupported_message() -> Seq<char> {
    "Unsupported value type"@
}

/// The text of a scalar mapping key; `None` for a key that has none.
pub open spec fn key_text(k: YamlNode) -> Option<Seq<char>> {
    match k {
        YamlNode::String(s) => Some(s@),
        YamlNode::Integer(i) => Some(int_text(i as int)),
        YamlNode::Real(s) => Some(s@),
        YamlNode::Boolean(b) => Some(if b { seq!['t', 'r', 'u', 'e'] } else { seq!['f', 'a', 'l', 's', 'e'] }),
        _ => None,
    }
}

/// Map insertion: a present key takes the new value in its place, a new key
/// goes last.
pub open spec fn put(e: Seq<(Seq<char>, Tree)>, k: Seq<char>, v: Tree) -> Seq<(Seq<char>, Tree)> {
    if exists|i: int| is_first_key(e, k, i) {
        e.update(choose|i: int| is_first_key(e, k, i), (k, v))
    } else {
        e.push((k, v))
    }
}

/// The value tree of a YAML node, or the message of the first conversion
/// failure met in document order.
pub open spec fn convert(y: YamlNode) -> Result<Tree, Seq<char>>
    decreases y, 0nat,
{
    match y {
        YamlNode::Hash(h) => match convert_entries(h, h.len() as nat) {
            Ok(e) => Ok(Tree::Object(e)),
            Err(m) => Err(m),
        },
        YamlNode::Array(a) => match convert_items(a, a.len() as nat) {
            Ok(s) => Ok(Tree::Array(s)),
            Err(m) => Err(m),
        },
        YamlNode::String(s) => Ok(Tree::Str(s@)),
        YamlNode::Integer(i) => Ok(Tree::Number(int_text(i as int))),
        YamlNode::Real(s) => Ok(Tree::Number(s@)),
        YamlNode::Boolean(b) => Ok(Tree::Bool(b)),
        YamlNode::Null => Ok(Tree::Null),
        _ => Err(unsupported_message()),
    }
}

/// Conversion of the first `n` items of a sequence.
pub open spec fn convert_items(a: Vec<YamlNode>, n: nat) -> Result<Seq<Tree>, Seq<char>>
    decreases a, n,
{
    if n == 0 || n > a.len() {
        Ok(Seq::empty())
    } else {
        match convert_items(a, (n - 1) as nat) {
            Ok(s) => match convert(a[n - 1]) {
                Ok(t) => Ok(s.push(t)),
                Err(m) => Err(m),
            },
            Err(m) => Err(m),
        }
    }
}

/// Conversion of the first `n` entries of a mapping, each key checked before
/// its value.
pub open spec fn convert_entries(h: Vec<(YamlNode, YamlNode)>, n: nat) -> Result<
    Seq<(Seq<char>, Tree)>,
    Seq<char>,
>
    decreases h, n,
{
    if n == 0 || n > h.len() {
        Ok(Seq::empty())
    } else {
        match convert_entries(h, (n - 1) as nat) {
            Ok(e) => match key_text(h[n - 1].0) {
                Some(k) => match convert(h[n - 1].1) {
                    Ok(t) => Ok(put(e, k, t)),
                    Err(m) => Err(m),
                },
                None => Err(non_key_message()),
            },
            Err(m) => Err(m),
        }
    }
}

/// Whether `r` is the outcome that `c` describes.
pub open spec fn converted_as<T: View>(r: Result<T, ParseError>, c: Result<T::V, Seq<char>>) -> bool {
    match r {
        Ok(v) => c == Ok::<T::V, Seq<char>>(v@),
        Err(ParseError::JsonConvertError(m)) => c == Err::<T::V, Seq<char>>(m@),
        Err(_) => false,
    }
}

} // verus!

verus! {

/// The text of a scalar mapping key.
pub fn yaml_to_key_string(yaml: &YamlNode) -> (r: Result<String, ParseError>)
    ensures
        match key_text(*yaml) {
            Some(k) => r matches Ok(s) && s@ == k,
            None => r matches Err(ParseError::JsonConvertError(m)) && m@ == non_key_message(),
        },
{
    match yaml {
        YamlNode::String(s) => Ok(s.clone()),
        YamlNode::Integer(i) => Ok(render_i64(*i)),
        YamlNode::Real(s) => Ok(s.clone()),
        YamlNode::Boolean(b) => {
            proof {
                reveal_strlit("true");
                reveal_strlit("false");
            }
            let t = if *b { "true" } else { "false" };
            Ok(String::from_str(t))
        },
        _ => Err(ParseError::conversion_error(String::from_str("Non-stringable key"))),
    }
}

/// Inserts `k` with `v` into an object's entries: in place of the entry that
/// holds `k`, or at the end.
pub fn insert_entry(e: &mut Vec<(String, Node)>, k: String, v: Node)
    ensures
        entries_view(*final(e), final(e).len() as nat) == put(
            entries_view(*old(e), old(e).len() as nat),
            k@,
            v@,
        ),
{
    let ghost ev = entries_view(*e, e.len() as nat);
    proof {
        lemma_entries_view(*e, e.len() as nat);
    }
    let mut i: usize = 0;
    while i < e.len()
        invariant
            i <= e.len(),
            *e == *old(e),
            ev == entries_view(*old(e), old(e).len() as nat),
            ev.len() == e.len(),
            forall|j: int| 0 <= j < ev.len() ==> #[trigger] ev[j] == (e[j].0@, e[j].1@),
            forall|j: int| 0 <= j < i ==> ev[j].0 != k@,
        decreases e.len() - i,
    {
        assert(ev[i as int] == (e[i as int].0@, e[i as int].1@));
        if e[i].0 == k {
            let ghost kv = k@;
            let ghost vv = v@;
            assert(is_first_key(ev, kv, i as int));
            assert forall|x: int| is_first_key(ev, kv, x) implies x == i as int by {
                if x < i {
                } else if x > i {
                    assert(ev[i as int].0 == kv);
                }
            }
            e.set(i, (k, v));
            proof {
                lemma_entries_view(*e, e.len() as nat);
                assert(entries_view(*e, e.len() as nat) =~= ev.update(i as int, (kv, vv)));
            }
            return;
        }
        i += 1;
    }
    let ghost kv = k@;
    let ghost vv = v@;
    e.push((k, v));
    proof {
        lemma_entries_view(*e, e.len() as nat);
        assert(entries_view(*e, e.len() as nat) =~= ev.push((kv, vv)));
    }
}

} // verus!

verus! {

/// A failure in the first `i` items is the failure of any longer prefix.
proof fn lemma_items_err(a: Vec<YamlNode>, i: nat, n: nat)
    requires
        i <= n <= a.len(),
        convert_items(a, i) is Err,
    ensures
        convert_items(a, n) == convert_items(a, i),
    decreases n - i,
{
    if n > i {
        lemma_items_err(a, i, (n - 1) as nat);
    }
}

/// A failure in the first `i` entries is the failure of any longer prefix.
proof fn lemma_entries_err(h: Vec<(YamlNode, YamlNode)>, i: nat, n: nat)
    requires
        i <= n <= h.len(),
        convert_entries(h, i) is Err,
    ensures
        convert_entries(h, n) == convert_entries(h, i),
    decreases n - i,
{
    if n > i {
        lemma_entries_err(h, i, (n - 1) as nat);
    }
}

/// Converts a YAML node into a value: mappings to objects, sequences to
/// arrays, floats to numbers in their written text.
pub fn yaml_to_json(yaml: &YamlNode) -> (r: Result<Node, ParseError>)
    ensures
        converted_as(r, convert(*yaml)),
        r matches Ok(v) ==> wf_tree(v@),
    decreases yaml, 1nat,
{
    proof {
        lemma_convert_wf(*yaml);
    }
    match yaml {
        YamlNode::Hash(h) => handle_hash(h),
        YamlNode::Array(a) => handle_array(a),
        YamlNode::String(s) => Ok(Node::Str(s.clone())),
        YamlNode::Integer(i) => Ok(Node::Number(render_i64(*i))),
        YamlNode::Real(s) => Ok(Node::Number(s.clone())),
        YamlNode::Boolean(b) => Ok(Node::Bool(*b)),
        YamlNode::Null => Ok(Node::Null),
        _ => Err(ParseError::conversion_error(String::from_str("Unsupported value type"))),
    }
}

/// Converts the entries of a YAML mapping into an object; of two entries
/// whose keys have the same text the later value stands.
pub fn handle_hash(hash: &Vec<(YamlNode, YamlNode)>) -> (r: Result<Node, ParseError>)
    ensures
        converted_as(
            r,
            match convert_entries(*hash, hash.len() as nat) {
                Ok(e) => Ok(Tree::Object(e)),
                Err(m) => Err(m),
            },
        ),
    decreases hash, 0nat,
{
    let mut result: Vec<(String, Node)> = Vec::new();
    let mut i: usize = 0;
    while i < hash.len()
        invariant
            i <= hash.len(),
            convert_entries(*hash, i as nat) == Ok::<Seq<(Seq<char>, Tree)>, Seq<char>>(
                entries_view(result, result.len() as nat),
            ),
        decreases hash.len() - i,
    {
        let key = match yaml_to_key_string(&hash[i].0) {
            Ok(k) => k,
            Err(e) => {
                proof {
                    lemma_entries_err(*hash, (i + 1) as nat, hash.len() as nat);
                }
                return Err(e);
            },
        };
        let value = match yaml_to_json(&hash[i].1) {
            Ok(v) => v,
            Err(e) => {
                proof {
                    lemma_entries_err(*hash, (i + 1) as nat, hash.len() as nat);
                }
                return Err(e);
            },
        };
        insert_entry(&mut result, key, value);
        i += 1;
    }
    Ok(Node::Object(result))
}

/// Converts the items of a YAML sequence into an array.
pub fn handle_array(array: &Vec<YamlNode>) -> (r: Result<Node, ParseError>)
    ensures
        converted_as(
            r,
            match convert_items(*array, array.len() as nat) {
                Ok(s) => Ok(Tree::Array(s)),
                Err(m) => Err(m),
            },
        ),
    decreases array, 0nat,
{
    let mut result: Vec<Node> = Vec::new();
    let mut i: usize = 0;
    while i < array.len()
        invariant
            i <= array.len(),
            result.len() == i,
            convert_items(*array, i as nat) == Ok::<Seq<Tree>, Seq<char>>(
                items_view(result, i as nat),
            ),
        decreases array.len() - i,
    {
        let value = match yaml_to_json(&array[i]) {
            Ok(v) => v,
            Err(e) => {
                proof {
                    lemma_items_err(*array, (i + 1) as nat, array.len() as nat);
                }
                return Err(e);
            },
        };
        let ghost before = result;
        let ghost vv = value@;
        result.push(value);
        proof {
            lemma_items_view(before, i as nat);
            lemma_items_view(result, (i + 1) as nat);
            assert(items_view(result, (i + 1) as nat) =~= items_view(before, i as nat).push(vv));
        }
        i += 1;
    }
    Ok(Node::Array(result))
}

} // verus!

verus! {

/// A node made only of scalars, sequences and mappings with scalar keys.
pub open spec fn plain(y: YamlNode) -> bool
    decreases y, 0nat,
{
    match y {
        YamlNode::Hash(h) => plain_entries(h, h.len() as nat),
        YamlNode::Array(a) => plain_items(a, a.len() as nat),
        YamlNode::Alias(_) => false,
        YamlNode::BadValue => false,
        _ => true,
    }
}

pub open spec fn plain_items(a: Vec<YamlNode>, n: nat) -> bool
    decreases a, n,
{
    n == 0 || n > a.len() || (plain_items(a, (n - 1) as nat) && plain(a[n - 1]))
}

pub open spec fn plain_entries(h: Vec<(YamlNode, YamlNode)>, n: nat) -> bool
    decreases h, n,
{
    n == 0 || n > h.len() || (plain_entries(h, (n - 1) as nat) && key_text(h[n - 1].0) is Some
        && plain(h[n - 1].1))
}

/// Every node made only of scalars, sequences and mappings with scalar keys
/// converts into a value.
pub proof fn lemma_plain_converts(y: YamlNode)
    requires
        plain(y),
    ensures
        convert(y) is Ok,
    decreases y, 1nat,
{
    match y {
        YamlNode::Hash(h) => lemma_plain_entries(h, h.len() as nat),
        YamlNode::Array(a) => lemma_plain_items(a, a.len() as nat),
        _ => {},
    }
}

proof fn lemma_plain_items(a: Vec<YamlNode>, n: nat)
    requires
        plain_items(a, n),
    ensures
        convert_items(a, n) is Ok,
    decreases a, n,
{
    if n > 0 && n <= a.len() {
        lemma_plain_items(a, (n - 1) as nat);
        lemma_plain_converts(a[n - 1]);
    }
}

proof fn lemma_plain_entries(h: Vec<(YamlNode, YamlNode)>, n: nat)
    requires
        plain_entries(h, n),
    ensures
        convert_entries(h, n) is Ok,
    decreases h, n,
{
    if n > 0 && n <= h.len() {
        lemma_plain_entries(h, (n - 1) as nat);
        lemma_plain_converts(h[n - 1].1);
    }
}

/// A float keeps the text it was written in: it becomes a number whose text
/// is that text.
pub proof fn lemma_real_keeps_text(s: String)
    ensures
        convert(YamlNode::Real(s)) == Ok::<Tree, Seq<char>>(Tree::Number(s@)),
        scalar_text(Tree::Number(s@)) == s@,
{
}

/// A mapping with a key that is not a scalar fails to convert: the key is
/// neither dropped nor coerced.
pub proof fn lemma_non_scalar_key_fails(h: Vec<(YamlNode, YamlNode)>, i: int)
    requires
        0 <= i < h.len(),
        key_text(h[i].0) is None,
    ensures
        convert(YamlNode::Hash(h)) is Err,
{
    lemma_entry_fails(h, i, h.len() as nat);
}

proof fn lemma_entry_fails(h: Vec<(YamlNode, YamlNode)>, i: int, n: nat)
    requires
        0 <= i < n <= h.len(),
        key_text(h[i].0) is None,
    ensures
        convert_entries(h, n) is Err,
    decreases n,
{
    if i < n - 1 {
        lemma_entry_fails(h, i, (n - 1) as nat);
    }
}

} // verus!

verus! {

proof fn lemma_first_key_exists(e: Seq<(Seq<char>, Tree)>, k: Seq<char>, i: int)
    requires
        0 <= i < e.len(),
        e[i].0 == k,
    ensures
        exists|j: int| is_first_key(e, k, j),
    decreases i,
{
    if is_first_key(e, k, i) {
    } else {
        let y = choose|y: int| 0 <= y < i && e[y].0 == k;
        lemma_first_key_exists(e, k, y);
    }
}

proof fn lemma_put_wf(e: Seq<(Seq<char>, Tree)>, k: Seq<char>, v: Tree)
    requires
        keys_unique(e),
        forall|i: int| 0 <= i < e.len() ==> wf_tree(#[trigger] e[i].1),
        wf_tree(v),
    ensures
        keys_unique(put(e, k, v)),
        forall|i: int| 0 <= i < put(e, k, v).len() ==> wf_tree(#[trigger] put(e, k, v)[i].1),
{
    let p = put(e, k, v);
    if exists|i: int| is_first_key(e, k, i) {
        let c = choose|i: int| is_first_key(e, k, i);
        assert(p == e.update(c, (k, v)));
        assert forall|i: int, j: int|
            0 <= i < p.len() && 0 <= j < p.len() && i != j implies #[trigger] p[i].0
            != #[trigger] p[j].0 by {
            assert(p[i].0 == e[i].0);
            assert(p[j].0 == e[j].0);
        }
    } else {
        assert(p == e.push((k, v)));
        assert forall|i: int, j: int|
            0 <= i < p.len() && 0 <= j < p.len() && i != j implies #[trigger] p[i].0
            != #[trigger] p[j].0 by {
            if i < e.len() && j < e.len() {
                assert(p[i] == e[i]);
                assert(p[j] == e[j]);
            } else if i < e.len() {
                assert(p[i] == e[i]);
                if e[i].0 == k {
                    lemma_first_key_exists(e, k, i);
                }
            } else if j < e.len() {
                assert(p[j] == e[j]);
                if e[j].0 == k {
                    lemma_first_key_exists(e, k, j);
                }
            }
        }
    }
}

} // verus!

verus! {

/// A converted node holds each key of an object once.
pub proof fn lemma_convert_wf(y: YamlNode)
    ensures
        convert(y) matches Ok(t) ==> wf_tree(t),
    decreases y, 1nat,
{
    match y {
        YamlNode::Hash(h) => {
            lemma_convert_entries_wf(h, h.len() as nat);
            if let Ok(e) = convert_entries(h, h.len() as nat) {
                lemma_wf_entries_all(e, e.len() as nat);
            }
        },
        YamlNode::Array(a) => {
            lemma_convert_items_wf(a, a.len() as nat);
            if let Ok(s) = convert_items(a, a.len() as nat) {
                lemma_wf_items_all(s, s.len() as nat);
            }
        },
        _ => {},
    }
}

proof fn lemma_convert_items_wf(a: Vec<YamlNode>, n: nat)
    ensures
        convert_items(a, n) matches Ok(s) ==> forall|i: int| 0 <= i < s.len() ==> wf_tree(#[trigger] s[i]),
    decreases a, n,
{
    if n > 0 && n <= a.len() {
        lemma_convert_items_wf(a, (n - 1) as nat);
        lemma_convert_wf(a[n - 1]);
        if let Ok(s) = convert_items(a, n) {
            let s0 = convert_items(a, (n - 1) as nat)->Ok_0;
            assert(s == s0.push(convert(a[n - 1])->Ok_0));
            assert forall|i: int| 0 <= i < s.len() implies wf_tree(#[trigger] s[i]) by {
                if i < s0.len() {
                    assert(s[i] == s0[i]);
                }
            }
        }
    }
}

proof fn lemma_convert_entries_wf(h: Vec<(YamlNode, YamlNode)>, n: nat)
    ensures
        convert_entries(h, n) matches Ok(e) ==> keys_unique(e) && forall|i: int|
            0 <= i < e.len() ==> wf_tree(#[trigger] e[i].1),
    decreases h, n,
{
    if n > 0 && n <= h.len() {
        lemma_convert_entries_wf(h, (n - 1) as nat);
        lemma_convert_wf(h[n - 1].1);
        if let Ok(e) = convert_entries(h, n) {
            let e0 = convert_entries(h, (n - 1) as nat)->Ok_0;
            lemma_put_wf(e0, key_text(h[n - 1].0)->Some_0, convert(h[n - 1].1)->Ok_0);
        }
    }
}

} // verus!
