use vstd::prelude::*;
use crate::decimal::{decimal_text, render_usize};
use crate::value::{entries_view, items_view, lemma_entries_view, lemma_items_view, Node, Tree};

verus! {

/// The text printed for a scalar.
pub open spec fn scalar_text(t: Tree) -> Seq<char> {
    match t {
        Tree::Null => seq!['n', 'u', 'l', 'l'],
        Tree::Bool(b) => if b { seq!['t', 'r', 'u', 'e'] } else { seq!['f', 'a', 'l', 's', 'e'] },
        Tree::Number(s) => s,
        Tree::Str(s) => s,
        _ => Seq::empty(),
    }
}

pub open spec fn is_scalar(t: Tree) -> bool {
    !(t is Array) && !(t is Object)
}

/// One record per scalar under `t`, depth first, each labelled with `prefix`
/// followed by the keys and indices that lead to it.
pub open spec fn flat(t: Tree, prefix: Seq<Seq<char>>) -> Seq<(Seq<Seq<char>>, Seq<char>)>
    decreases t, 0nat,
{
    match t {
        Tree::Array(a) => flat_items(a, a.len() as nat, prefix),
        Tree::Object(e) => flat_entries(e, e.len() as nat, prefix),
        _ => seq![(prefix, scalar_text(t))],
    }
}

/// The records of the first `n` items of an array.
pub open spec fn flat_items(a: Seq<Tree>, n: nat, prefix: Seq<Seq<char>>) -> Seq<
    (Seq<Seq<char>>, Seq<char>),
>
    decreases a, n,
{
    if n == 0 || n > a.len() {
        Seq::empty()
    } else {
        flat_items(a, (n - 1) as nat, prefix) + flat(
            a[n - 1],
            prefix.push(decimal_text((n - 1) as nat)),
        )
    }
}

/// The records of the first `n` entries of an object.
pub open spec fn flat_entries(e: Seq<(Seq<char>, Tree)>, n: nat, prefix: Seq<Seq<char>>) -> Seq<
    (Seq<Seq<char>>, Seq<char>),
>
    decreases e, n,
{
    if n == 0 || n > e.len() {
        Seq::empty()
    } else {
        flat_entries(e, (n - 1) as nat, prefix) + flat(e[n - 1].1, prefix.push(e[n - 1].0))
    }
}

pub open spec fn strings_view(s: Seq<String>) -> Seq<Seq<char>> {
    s.map_values(|x: String| x@)
}

/// A scalar together with the path that leads to it.
pub struct Record {
    pub path: Vec<String>,
    pub text: String,
}

impl View for Record {
    type V = (Seq<Seq<char>>, Seq<char>);

    open spec fn view(&self) -> (Seq<Seq<char>>, Seq<char>) {
        (strings_view(self.path@), self.text@)
    }
}

pub open spec fn records_view(s: Seq<Record>) -> Seq<(Seq<Seq<char>>, Seq<char>)> {
    s.map_values(|r: Record| r@)
}

/// The text of a scalar value; empty for an array or an object.
pub fn scalar_string(v: &Node) -> (r: String)
    ensures
        r@ == scalar_text(v@),
{
    proof {
        reveal_strlit("null");
        reveal_strlit("true");
        reveal_strlit("false");
    }
    match v {
        Node::Null => String::from_str("null"),
        Node::Bool(b) => String::from_str(if *b { "true" } else { "false" }),
        Node::Number(s) => s.clone(),
        Node::Str(s) => s.clone(),
        _ => String::new(),
    }
}

fn clone_strings(s: &Vec<String>) -> (r: Vec<String>)
    ensures
        r@ == s@,
{
    let mut r: Vec<String> = Vec::new();
    let mut i: usize = 0;
    while i < s.len()
        invariant
            i <= s.len(),
            r@ == s@.subrange(0, i as int),
        decreases s.len() - i,
    {
        r.push(s[i].clone());
        assert(r@ =~= s@.subrange(0, i + 1));
        i += 1;
    }
    assert(r@ =~= s@);
    r
}

/// Appends the records of `value` under `prefix` to `out`; `prefix` is the
/// same after the call.
pub fn flatten_into(value: &Node, prefix: &mut Vec<String>, out: &mut Vec<Record>)
    ensures
        final(prefix)@ == old(prefix)@,
        records_view(final(out)@) == records_view(old(out)@) + flat(value@, strings_view(old(prefix)@)),
    decreases value, 1nat,
{
    match value {
        Node::Array(a) => flatten_array(a, prefix, out),
        Node::Object(e) => flatten_object(e, prefix, out),
        _ => {
            let ghost out0 = records_view(out@);
            let text = scalar_string(value);
            let path = clone_strings(prefix);
            let rec = Record { path, text };
            out.push(rec);
            assert(records_view(out@) =~= out0 + flat(value@, strings_view(prefix@)));
        },
    }
}

fn flatten_array(a: &Vec<Node>, prefix: &mut Vec<String>, out: &mut Vec<Record>)
    ensures
        final(prefix)@ == old(prefix)@,
        records_view(final(out)@) == records_view(old(out)@) + flat(
            Node::Array(*a)@,
            strings_view(old(prefix)@),
        ),
    decreases a, 0nat,
{
    let ghost pv = strings_view(prefix@);
    let ghost out0 = records_view(out@);
    let ghost items = items_view(*a, a.len() as nat);
    proof {
        lemma_items_view(*a, a.len() as nat);
    }
    let mut i: usize = 0;
    while i < a.len()
        invariant
            i <= a.len(),
            prefix@ == old(prefix)@,
            pv == strings_view(old(prefix)@),
            out0 == records_view(old(out)@),
            items == items_view(*a, a.len() as nat),
            items.len() == a.len(),
            forall|j: int| 0 <= j < a.len() ==> #[trigger] items[j] == a[j]@,
            records_view(out@) == out0 + flat_items(items, i as nat, pv),
        decreases a.len() - i,
    {
        let seg = render_usize(i);
        let ghost segv = seg@;
        prefix.push(seg);
        assert(strings_view(prefix@) =~= pv.push(segv));
        flatten_into(&a[i], prefix, out);
        prefix.pop();
        assert(prefix@ =~= old(prefix)@);
        assert(items[i as int] == a[i as int]@);
        assert(records_view(out@) =~= out0 + flat_items(items, (i + 1) as nat, pv));
        i += 1;
    }
}

fn flatten_object(e: &Vec<(String, Node)>, prefix: &mut Vec<String>, out: &mut Vec<Record>)
    ensures
        final(prefix)@ == old(prefix)@,
        records_view(final(out)@) == records_view(old(out)@) + flat(
            Node::Object(*e)@,
            strings_view(old(prefix)@),
        ),
    decreases e, 0nat,
{
    let ghost pv = strings_view(prefix@);
    let ghost out0 = records_view(out@);
    let ghost entries = entries_view(*e, e.len() as nat);
    proof {
        lemma_entries_view(*e, e.len() as nat);
    }
    let mut i: usize = 0;
    while i < e.len()
        invariant
            i <= e.len(),
            prefix@ == old(prefix)@,
            pv == strings_view(old(prefix)@),
            out0 == records_view(old(out)@),
            entries == entries_view(*e, e.len() as nat),
            entries.len() == e.len(),
            forall|j: int| 0 <= j < e.len() ==> #[trigger] entries[j] == (e[j].0@, e[j].1@),
            records_view(out@) == out0 + flat_entries(entries, i as nat, pv),
        decreases e.len() - i,
    {
        let seg = e[i].0.clone();
        let ghost segv = seg@;
        prefix.push(seg);
        assert(strings_view(prefix@) =~= pv.push(segv));
        flatten_into(&e[i].1, prefix, out);
        prefix.pop();
        assert(prefix@ =~= old(prefix)@);
        assert(entries[i as int] == (e[i as int].0@, e[i as int].1@));
        assert(records_view(out@) =~= out0 + flat_entries(entries, (i + 1) as nat, pv));
        i += 1;
    }
}

/// The records of every scalar under `value`, labelled with their paths from
/// `value` itself.
pub fn flatten(value: &Node) -> (r: Vec<Record>)
    ensures
        records_view(r@) == flat(value@, Seq::empty()),
{
    let mut prefix: Vec<String> = Vec::new();
    let mut out: Vec<Record> = Vec::new();
    flatten_into(value, &mut prefix, &mut out);
    assert(strings_view(Seq::<String>::empty()) =~= Seq::empty());
    assert(records_view(Seq::<Record>::empty()) =~= Seq::empty());
    assert(records_view(out@) =~= flat(value@, Seq::empty()));
    out
}

} // verus!

verus! {

/// The segments of a path joined by dots.
pub open spec fn join_path(segs: Seq<Seq<char>>) -> Seq<char>
    decreases segs.len(),
{
    if segs.len() == 0 {
        Seq::empty()
    } else if segs.len() == 1 {
        segs[0]
    } else {
        join_path(segs.drop_last()) + seq!['.'] + segs.last()
    }
}

/// The printed line of a record: `path:text`, or the bare text of a record
/// with an empty path.
pub open spec fn line_text(rec: (Seq<Seq<char>>, Seq<char>)) -> Seq<char> {
    if rec.0.len() == 0 {
        rec.1
    } else {
        join_path(rec.0) + seq![':'] + rec.1
    }
}

/// The printed lines of a value, one per scalar under it.
pub open spec fn lines_of(t: Tree) -> Seq<Seq<char>> {
    flat(t, Seq::empty()).map_values(|r: (Seq<Seq<char>>, Seq<char>)| line_text(r))
}

/// The printed line of one record.
pub fn render_line(rec: &Record) -> (r: String)
    ensures
        r@ == line_text(rec@),
{
    let ghost pv = strings_view(rec.path@);
    let mut s = String::new();
    let mut i: usize = 0;
    assert(pv.subrange(0, 0) =~= Seq::<Seq<char>>::empty());
    while i < rec.path.len()
        invariant
            i <= rec.path.len(),
            pv == strings_view(rec.path@),
            s@ == join_path(pv.subrange(0, i as int)),
        decreases rec.path.len() - i,
    {
        let ghost before = s@;
        if i > 0 {
            proof {
                reveal_strlit(".");
            }
            s.append(".");
            assert(s@ =~= before + seq!['.']);
        }
        let ghost mid = s@;
        s.append(rec.path[i].as_str());
        assert(s@ =~= mid + rec.path[i as int]@);
        let ghost next = pv.subrange(0, i + 1);
        assert(next.drop_last() =~= pv.subrange(0, i as int));
        assert(next.last() == rec.path[i as int]@);
        if i > 0 {
            assert(s@ =~= before + seq!['.'] + next.last());
        } else {
            assert(s@ =~= next[0]);
        }
        i += 1;
    }
    assert(pv.subrange(0, i as int) =~= pv);
    if i > 0 {
        proof {
            reveal_strlit(":");
        }
        s.append(":");
    }
    s.append(rec.text.as_str());
    assert(s@ =~= line_text(rec@));
    s
}

/// The printed lines of `value`, one per scalar under it, labelled with its
/// path from `value`.
pub fn output(value: &Node) -> (r: Vec<String>)
    ensures
        strings_view(r@) == lines_of(value@),
{
    let records = flatten(value);
    let ghost recs = flat(value@, Seq::empty());
    let mut r: Vec<String> = Vec::new();
    let mut i: usize = 0;
    while i < records.len()
        invariant
            i <= records.len(),
            records_view(records@) == recs,
            recs.len() == records.len(),
            r.len() == i,
            forall|j: int| 0 <= j < i ==> #[trigger] r[j]@ == line_text(recs[j]),
        decreases records.len() - i,
    {
        let line = render_line(&records[i]);
        r.push(line);
        assert(recs[i as int] == records[i as int]@);
        i += 1;
    }
    assert(strings_view(r@) =~= lines_of(value@));
    r
}

} // verus!
