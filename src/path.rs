use vstd::prelude::*;
use crate::decimal::{decimal_text, digit_char};
use crate::flatten::{
    flat, flat_entries, flat_items, is_scalar, line_text, lines_of, output, scalar_text,
    strings_view,
};
use crate::value::{
    entries_count, entries_view, is_first_key, items_count, keys_unique, lemma_entries_view,
    lemma_items_view, scalar_count, wf_entries, wf_items, wf_tree, Node, Tree,
};

verus! {

/// The pieces of `s` between its dots.
pub open spec fn split_dots(s: Seq<char>) -> Seq<Seq<char>>
    decreases s.len(),
{
    if s.len() == 0 {
        seq![Seq::empty()]
    } else {
        let p = split_dots(s.drop_last());
        if s.last() == '.' {
            p.push(Seq::empty())
        } else {
            p.update(p.len() - 1, p.last().push(s.last()))
        }
    }
}

/// The segments of a path expression: none for the empty expression, which
/// names the whole document.
pub open spec fn path_segments(key: Seq<char>) -> Seq<Seq<char>> {
    if key.len() == 0 {
        Seq::empty()
    } else {
        split_dots(key)
    }
}

pub open spec fn is_digit(c: char) -> bool {
    '0' <= c && c <= '9'
}

/// A segment that reads as an array index: one or more decimal digits.
pub open spec fn is_index(s: Seq<char>) -> bool {
    s.len() > 0 && forall|i: int| 0 <= i < s.len() ==> is_digit(#[trigger] s[i])
}

/// The number that a string of decimal digits denotes.
pub open spec fn digits_value(s: Seq<char>) -> nat
    decreases s.len(),
{
    if s.len() == 0 {
        0
    } else {
        digits_value(s.drop_last()) * 10 + (s.last() as nat - '0' as nat) as nat
    }
}

/// The value of the entry of `e` whose key is `k`.
pub open spec fn entry_value(e: Seq<(Seq<char>, Tree)>, k: Seq<char>) -> Option<Tree> {
    if exists|i: int| is_first_key(e, k, i) {
        Some(e[choose|i: int| is_first_key(e, k, i)].1)
    } else {
        None
    }
}

/// The child of `t` that one segment selects: the entry of that key in an
/// object, the item of that index in an array, nothing in a scalar.
pub open spec fn child(t: Tree, seg: Seq<char>) -> Option<Tree> {
    match t {
        Tree::Object(e) => entry_value(e, seg),
        Tree::Array(a) => if is_index(seg) && digits_value(seg) < a.len() {
            Some(a[digits_value(seg) as int])
        } else {
            None
        },
        _ => None,
    }
}

/// The sub-tree that a sequence of segments leads to, if every step resolves.
pub open spec fn lookup(t: Tree, segs: Seq<Seq<char>>) -> Option<Tree>
    decreases segs.len(),
{
    if segs.len() == 0 {
        Some(t)
    } else {
        match child(t, segs[0]) {
            Some(c) => lookup(c, segs.drop_first()),
            None => None,
        }
    }
}

/// Splits a path expression into its segments.
pub fn split_path(key: &str) -> (r: Vec<String>)
    ensures
        strings_view(r@) == path_segments(key@),
{
    let n = key.unicode_len();
    let mut r: Vec<String> = Vec::new();
    if n == 0 {
        assert(strings_view(r@) =~= path_segments(key@));
        return r;
    }
    let mut start: usize = 0;
    let mut i: usize = 0;
    assert(key@.subrange(0, 0) =~= Seq::<char>::empty());
    assert(strings_view(r@).push(Seq::<char>::empty()) =~= seq![Seq::<char>::empty()]);
    while i < n
        invariant
            n == key@.len(),
            start <= i <= n,
            split_dots(key@.subrange(0, i as int)) == strings_view(r@).push(
                key@.subrange(start as int, i as int),
            ),
        decreases n - i,
    {
        let c = key.get_char(i);
        let ghost pre = key@.subrange(0, i as int);
        assert(key@.subrange(0, i + 1).drop_last() =~= pre);
        if c == '.' {
            let seg = String::from_str(key.substring_char(start, i));
            r.push(seg);
            assert(key@.subrange(i + 1, i + 1) =~= Seq::<char>::empty());
            start = i + 1;
        } else {
            assert(key@.subrange(start as int, i + 1) =~= key@.subrange(start as int, i as int).push(c));
        }
        assert(strings_view(r@) =~= r@.map_values(|x: String| x@));
        i += 1;
    }
    let seg = String::from_str(key.substring_char(start, n));
    r.push(seg);
    assert(key@.subrange(0, n as int) =~= key@);
    assert(strings_view(r@) =~= path_segments(key@));
    r
}

} // verus!

verus! {

proof fn lemma_digits_prefix(s: Seq<char>, k: int)
    requires
        0 <= k <= s.len(),
        forall|i: int| 0 <= i < s.len() ==> is_digit(#[trigger] s[i]),
    ensures
        digits_value(s) >= digits_value(s.subrange(0, k)),
    decreases s.len(),
{
    if k == s.len() {
        assert(s.subrange(0, k) =~= s);
    } else {
        let t = s.drop_last();
        assert(t.subrange(0, k) =~= s.subrange(0, k));
        assert forall|i: int| 0 <= i < t.len() implies is_digit(#[trigger] t[i]) by {
            assert(t[i] == s[i]);
        }
        lemma_digits_prefix(t, k);
    }
}

/// Reads `seg` as an index below `bound`: `Some` exactly when it is a string
/// of decimal digits whose value is under `bound`.
pub fn parse_index(seg: &String, bound: usize) -> (r: Option<usize>)
    ensures
        r == (if is_index(seg@) && digits_value(seg@) < bound {
            Some(digits_value(seg@) as usize)
        } else {
            None::<usize>
        }),
{
    let s = seg.as_str();
    let n = s.unicode_len();
    if n == 0 || bound == 0 {
        return None;
    }
    let mut acc: usize = 0;
    let mut i: usize = 0;
    assert(s@.subrange(0, 0) =~= Seq::<char>::empty());
    while i < n
        invariant
            n == s@.len(),
            s@ == seg@,
            i <= n,
            acc == digits_value(s@.subrange(0, i as int)),
            acc < bound,
            forall|j: int| 0 <= j < i ==> is_digit(#[trigger] s@[j]),
        decreases n - i,
    {
        let c = s.get_char(i);
        if !('0' <= c && c <= '9') {
            assert(!is_digit(s@[i as int]));
            return None;
        }
        let d: usize = ((c as u32) - ('0' as u32)) as usize;
        let ghost pre = s@.subrange(0, i as int);
        assert(s@.subrange(0, i + 1).drop_last() =~= pre);
        assert(digits_value(s@.subrange(0, i + 1)) == acc * 10 + d);
        if acc > (usize::MAX - d) / 10 {
            proof {
                assert(acc * 10 + d > usize::MAX) by (nonlinear_arith)
                    requires
                        acc > (usize::MAX - d) / 10,
                        d <= 9,
                ;
                if is_index(s@) {
                    lemma_digits_prefix(s@, i + 1);
                }
            }
            return None;
        }
        acc = acc * 10 + d;
        if acc >= bound {
            proof {
                if is_index(s@) {
                    lemma_digits_prefix(s@, i + 1);
                }
            }
            return None;
        }
        i += 1;
    }
    assert(s@.subrange(0, n as int) =~= s@);
    Some(acc)
}

proof fn lemma_child_object(e: Seq<(Seq<char>, Tree)>, k: Seq<char>, i: int)
    requires
        is_first_key(e, k, i),
    ensures
        child(Tree::Object(e), k) == Some(e[i].1),
{
    assert forall|x: int| is_first_key(e, k, x) implies x == i by {
        if x > i {
            assert(e[i].0 == k);
        }
    }
}

/// The child of `value` that `seg` selects.
pub fn child_of<'a>(value: &'a Node, seg: &String) -> (r: Option<&'a Node>)
    ensures
        match child(value@, seg@) {
            Some(c) => r matches Some(x) && x@ == c,
            None => r is None,
        },
{
    match value {
        Node::Object(e) => {
            let ghost ev = entries_view(*e, e.len() as nat);
            proof {
                lemma_entries_view(*e, e.len() as nat);
            }
            let mut i: usize = 0;
            while i < e.len()
                invariant
                    i <= e.len(),
                    *value == Node::Object(*e),
                    ev == entries_view(*e, e.len() as nat),
                    ev.len() == e.len(),
                    forall|j: int| 0 <= j < ev.len() ==> #[trigger] ev[j] == (e[j].0@, e[j].1@),
                    forall|j: int| 0 <= j < i ==> ev[j].0 != seg@,
                decreases e.len() - i,
            {
                assert(ev[i as int] == (e[i as int].0@, e[i as int].1@));
                if e[i].0 == *seg {
                    assert(is_first_key(ev, seg@, i as int));
                    assert(value@ == Tree::Object(ev));
                    proof {
                        lemma_child_object(ev, seg@, i as int);
                    }
                    return Some(&e[i].1);
                }
                i += 1;
            }
            None
        },
        Node::Array(a) => {
            proof {
                lemma_items_view(*a, a.len() as nat);
            }
            match parse_index(seg, a.len()) {
                Some(i) => Some(&a[i]),
                None => None,
            }
        },
        _ => None,
    }
}

/// The sub-value that the dot-delimited path `key` leads to; the whole value
/// for the empty path, `None` where a segment does not resolve.
pub fn extract<'a>(key: &String, json_in: &'a Node) -> (r: Option<&'a Node>)
    ensures
        match lookup(json_in@, path_segments(key@)) {
            Some(t) => r matches Some(x) && x@ == t,
            None => r is None,
        },
{
    let segs = split_path(key.as_str());
    let ghost sv = strings_view(segs@);
    let mut cur: &'a Node = json_in;
    let mut i: usize = 0;
    assert(sv.subrange(0, sv.len() as int) =~= sv);
    while i < segs.len()
        invariant
            sv == strings_view(segs@),
            sv == path_segments(key@),
            i <= segs.len(),
            lookup(json_in@, sv) == lookup(cur@, sv.subrange(i as int, sv.len() as int)),
        decreases segs.len() - i,
    {
        let ghost rest = sv.subrange(i as int, sv.len() as int);
        assert(rest[0] == segs[i as int]@);
        assert(rest.drop_first() =~= sv.subrange(i + 1, sv.len() as int));
        match child_of(cur, &segs[i]) {
            Some(c) => {
                cur = c;
            },
            None => {
                return None;
            },
        }
        i += 1;
    }
    assert(sv.subrange(i as int, sv.len() as int) =~= Seq::<Seq<char>>::empty());
    Some(cur)
}

} // verus!

verus! {

/// The printed lines of what the path `key` leads to in `root`: none where
/// it leads nowhere.
pub fn extract_lines(key: &String, root: &Node) -> (r: Vec<String>)
    ensures
        strings_view(r@) == match lookup(root@, path_segments(key@)) {
            Some(t) => lines_of(t),
            None => Seq::<Seq<char>>::empty(),
        },
{
    match extract(key, root) {
        Some(v) => output(v),
        None => {
            let r: Vec<String> = Vec::new();
            assert(strings_view(r@) =~= Seq::<Seq<char>>::empty());
            r
        },
    }
}

/// A path whose first segment names no key of an object, or no index of an
/// array, leads nowhere, and so prints no lines.
pub proof fn lemma_unresolved_path(t: Tree, segs: Seq<Seq<char>>)
    requires
        segs.len() > 0,
        match t {
            Tree::Object(e) => forall|i: int| 0 <= i < e.len() ==> #[trigger] e[i].0 != segs[0],
            Tree::Array(a) => !is_index(segs[0]) || digits_value(segs[0]) >= a.len(),
            _ => true,
        },
    ensures
        lookup(t, segs) is None,
{
    if let Tree::Object(e) = t {
        assert(!exists|i: int| is_first_key(e, segs[0], i));
    }
}

} // verus!

verus! {

proof fn lemma_digit_char(d: nat)
    requires
        d < 10,
    ensures
        is_digit(digit_char(d)),
        (digit_char(d) as nat - '0' as nat) as nat == d,
{
}

/// The decimal text of a number reads back as that number.
pub proof fn lemma_decimal_index(n: nat)
    ensures
        is_index(decimal_text(n)),
        digits_value(decimal_text(n)) == n,
    decreases n,
{
    let s = decimal_text(n);
    lemma_digit_char(n % 10);
    if n < 10 {
        assert(s.drop_last() =~= Seq::<char>::empty());
        assert(s.last() == digit_char(n));
        assert(digits_value(s.drop_last()) == 0);
    } else {
        lemma_decimal_index(n / 10);
        assert(s.drop_last() =~= decimal_text(n / 10));
        assert(s.last() == digit_char(n % 10));
        assert(n == (n / 10) * 10 + n % 10) by (nonlinear_arith);
        assert(digits_value(s) == digits_value(decimal_text(n / 10)) * 10 + (digit_char(n % 10) as nat
            - '0' as nat) as nat);
        assert forall|i: int| 0 <= i < s.len() implies is_digit(#[trigger] s[i]) by {
            if i < s.len() - 1 {
                assert(s[i] == decimal_text(n / 10)[i]);
            }
        }
    }
}

} // verus!

verus! {

/// The path `q` leads from `t` to a scalar printed as `s`.
pub open spec fn leads_to_scalar(t: Tree, q: Seq<Seq<char>>, s: Seq<char>) -> bool {
    match lookup(t, q) {
        Some(l) => is_scalar(l) && scalar_text(l) == s,
        None => false,
    }
}

/// The record's path extends `prefix` with a path that leads from `t` to the
/// record's scalar.
pub open spec fn record_leads(
    t: Tree,
    prefix: Seq<Seq<char>>,
    rec: (Seq<Seq<char>>, Seq<char>),
) -> bool {
    &&& rec.0.len() >= prefix.len()
    &&& rec.0.subrange(0, prefix.len() as int) == prefix
    &&& leads_to_scalar(t, rec.0.subrange(prefix.len() as int, rec.0.len() as int), rec.1)
}

pub open spec fn records_lead(
    t: Tree,
    prefix: Seq<Seq<char>>,
    recs: Seq<(Seq<Seq<char>>, Seq<char>)>,
) -> bool {
    forall|k: int| 0 <= k < recs.len() ==> record_leads(t, prefix, #[trigger] recs[k])
}

proof fn lemma_child_step(
    t: Tree,
    c: Tree,
    seg: Seq<char>,
    prefix: Seq<Seq<char>>,
    rec: (Seq<Seq<char>>, Seq<char>),
)
    requires
        child(t, seg) == Some(c),
        record_leads(c, prefix.push(seg), rec),
    ensures
        record_leads(t, prefix, rec),
{
    let p = rec.0;
    let plen = prefix.len() as int;
    let pre2 = prefix.push(seg);
    assert(pre2.len() == plen + 1);
    assert(p.subrange(0, plen + 1) == pre2);
    assert(p.subrange(0, plen) =~= pre2.subrange(0, plen));
    assert(pre2.subrange(0, plen) =~= prefix);
    let q = p.subrange(plen, p.len() as int);
    assert(p.subrange(0, plen + 1)[plen] == p[plen]);
    assert(q[0] == seg);
    assert(q.drop_first() =~= p.subrange(plen + 1, p.len() as int));
    assert(lookup(t, q) == lookup(c, q.drop_first()));
}

proof fn lemma_flat_leads(t: Tree, prefix: Seq<Seq<char>>)
    requires
        wf_tree(t),
    ensures
        records_lead(t, prefix, flat(t, prefix)),
        flat(t, prefix).len() == scalar_count(t),
    decreases t, 0nat,
{
    match t {
        Tree::Array(a) => lemma_items_lead(a, a.len() as nat, prefix),
        Tree::Object(e) => lemma_entries_lead(e, e.len() as nat, prefix),
        _ => {
            let rec = flat(t, prefix)[0];
            assert(prefix.subrange(0, prefix.len() as int) =~= prefix);
            assert(rec.0.subrange(prefix.len() as int, rec.0.len() as int) =~= Seq::<
                Seq<char>,
            >::empty());
        },
    }
}

proof fn lemma_items_lead(a: Seq<Tree>, n: nat, prefix: Seq<Seq<char>>)
    requires
        n <= a.len(),
        wf_items(a, n),
    ensures
        records_lead(Tree::Array(a), prefix, flat_items(a, n, prefix)),
        flat_items(a, n, prefix).len() == items_count(a, n),
    decreases a, n,
{
    if n > 0 {
        let seg = decimal_text((n - 1) as nat);
        let x = flat_items(a, (n - 1) as nat, prefix);
        let y = flat(a[n - 1], prefix.push(seg));
        lemma_items_lead(a, (n - 1) as nat, prefix);
        lemma_flat_leads(a[n - 1], prefix.push(seg));
        lemma_decimal_index((n - 1) as nat);
        assert(child(Tree::Array(a), seg) == Some(a[n - 1]));
        let all = flat_items(a, n, prefix);
        assert(all == x + y);
        assert forall|k: int| 0 <= k < all.len() implies record_leads(
            Tree::Array(a),
            prefix,
            #[trigger] all[k],
        ) by {
            if k < x.len() {
                assert(all[k] == x[k]);
            } else {
                assert(all[k] == y[k - x.len()]);
                assert(record_leads(a[n - 1], prefix.push(seg), y[k - x.len()]));
                lemma_child_step(Tree::Array(a), a[n - 1], seg, prefix, all[k]);
            }
        }
    }
}

proof fn lemma_entries_lead(e: Seq<(Seq<char>, Tree)>, n: nat, prefix: Seq<Seq<char>>)
    requires
        n <= e.len(),
        keys_unique(e),
        wf_entries(e, n),
    ensures
        records_lead(Tree::Object(e), prefix, flat_entries(e, n, prefix)),
        flat_entries(e, n, prefix).len() == entries_count(e, n),
    decreases e, n,
{
    if n > 0 {
        let seg = e[n - 1].0;
        let x = flat_entries(e, (n - 1) as nat, prefix);
        let y = flat(e[n - 1].1, prefix.push(seg));
        lemma_entries_lead(e, (n - 1) as nat, prefix);
        lemma_flat_leads(e[n - 1].1, prefix.push(seg));
        assert(is_first_key(e, seg, n - 1));
        lemma_child_object(e, seg, n - 1);
        let all = flat_entries(e, n, prefix);
        assert(all == x + y);
        assert forall|k: int| 0 <= k < all.len() implies record_leads(
            Tree::Object(e),
            prefix,
            #[trigger] all[k],
        ) by {
            if k < x.len() {
                assert(all[k] == x[k]);
            } else {
                assert(all[k] == y[k - x.len()]);
                assert(record_leads(e[n - 1].1, prefix.push(seg), y[k - x.len()]));
                lemma_child_step(Tree::Object(e), e[n - 1].1, seg, prefix, all[k]);
            }
        }
    }
}

/// Flattening a tree whose objects hold each key once gives one record per
/// scalar in it, and the path of each record leads back from the root to a
/// scalar printed as the record's text.
pub proof fn lemma_flatten_round_trip(t: Tree)
    requires
        wf_tree(t),
    ensures
        flat(t, Seq::empty()).len() == scalar_count(t),
        forall|k: int|
            0 <= k < flat(t, Seq::empty()).len() ==> leads_to_scalar(
                t,
                #[trigger] flat(t, Seq::empty())[k].0,
                flat(t, Seq::empty())[k].1,
            ),
{
    let recs = flat(t, Seq::empty());
    lemma_flat_leads(t, Seq::empty());
    assert forall|k: int| 0 <= k < recs.len() implies leads_to_scalar(t, recs[k].0, recs[k].1) by {
        assert(record_leads(t, Seq::empty(), recs[k]));
        assert(recs[k].0.subrange(0, recs[k].0.len() as int) =~= recs[k].0);
    }
}

} // verus!

verus! {

/// The printed lines of a tree whose objects hold each key once: one line
/// per scalar in it, each the line of a record whose path leads from the
/// root to a scalar printed as the record's text.
pub proof fn lemma_lines_per_leaf(t: Tree)
    requires
        wf_tree(t),
    ensures
        lines_of(t).len() == scalar_count(t),
        forall|k: int|
            0 <= k < lines_of(t).len() ==> #[trigger] lines_of(t)[k] == line_text(
                flat(t, Seq::empty())[k],
            ) && leads_to_scalar(t, flat(t, Seq::empty())[k].0, flat(t, Seq::empty())[k].1),
{
    lemma_flatten_round_trip(t);
    let recs = flat(t, Seq::empty());
    assert forall|k: int| 0 <= k < lines_of(t).len() implies #[trigger] lines_of(t)[k]
        == line_text(recs[k]) && leads_to_scalar(t, recs[k].0, recs[k].1) by {
        assert(leads_to_scalar(t, recs[k].0, recs[k].1));
    }
}

} // verus!

verus! {

/// No two records share a path.
pub open spec fn paths_distinct(recs: Seq<(Seq<Seq<char>>, Seq<char>)>) -> bool {
    forall|i: int, j: int|
        0 <= i < recs.len() && 0 <= j < recs.len() && i != j ==> #[trigger] recs[i].0
            != #[trigger] recs[j].0
}

/// After its first `plen` segments, the path of `rec` goes on with an index
/// below `n`.
pub open spec fn steps_below(rec: (Seq<Seq<char>>, Seq<char>), plen: nat, n: nat) -> bool {
    rec.0.len() > plen && is_index(rec.0[plen as int]) && digits_value(rec.0[plen as int]) < n
}

/// After its first `plen` segments, the path of `rec` goes on with none of
/// the keys of `e` from index `n` on.
pub open spec fn steps_before(
    rec: (Seq<Seq<char>>, Seq<char>),
    plen: nat,
    e: Seq<(Seq<char>, Tree)>,
    n: nat,
) -> bool {
    rec.0.len() > plen && forall|m: int| n <= m < e.len() ==> rec.0[plen as int] != #[trigger] e[m].0
}

proof fn lemma_step_of_child(
    rec: (Seq<Seq<char>>, Seq<char>),
    c: Tree,
    prefix: Seq<Seq<char>>,
    seg: Seq<char>,
)
    requires
        record_leads(c, prefix.push(seg), rec),
    ensures
        rec.0.len() > prefix.len(),
        rec.0[prefix.len() as int] == seg,
{
    let plen = prefix.len() as int;
    assert(rec.0.subrange(0, plen + 1)[plen] == rec.0[plen]);
}

proof fn lemma_flat_distinct(t: Tree, prefix: Seq<Seq<char>>)
    requires
        wf_tree(t),
    ensures
        paths_distinct(flat(t, prefix)),
    decreases t, 0nat,
{
    match t {
        Tree::Array(a) => lemma_items_distinct(a, a.len() as nat, prefix),
        Tree::Object(e) => lemma_entries_distinct(e, e.len() as nat, prefix),
        _ => {},
    }
}

proof fn lemma_items_distinct(a: Seq<Tree>, n: nat, prefix: Seq<Seq<char>>)
    requires
        n <= a.len(),
        wf_items(a, n),
    ensures
        paths_distinct(flat_items(a, n, prefix)),
        forall|k: int|
            0 <= k < flat_items(a, n, prefix).len() ==> steps_below(
                #[trigger] flat_items(a, n, prefix)[k],
                prefix.len(),
                n,
            ),
    decreases a, n,
{
    if n > 0 {
        let seg = decimal_text((n - 1) as nat);
        let x = flat_items(a, (n - 1) as nat, prefix);
        let y = flat(a[n - 1], prefix.push(seg));
        lemma_items_distinct(a, (n - 1) as nat, prefix);
        lemma_flat_distinct(a[n - 1], prefix.push(seg));
        lemma_flat_leads(a[n - 1], prefix.push(seg));
        lemma_decimal_index((n - 1) as nat);
        let all = flat_items(a, n, prefix);
        assert(all == x + y);
        assert forall|k: int| 0 <= k < all.len() implies steps_below(
            #[trigger] all[k],
            prefix.len(),
            n,
        ) by {
            if k < x.len() {
                assert(all[k] == x[k]);
                assert(steps_below(x[k], prefix.len(), (n - 1) as nat));
            } else {
                assert(all[k] == y[k - x.len()]);
                assert(record_leads(a[n - 1], prefix.push(seg), y[k - x.len()]));
                lemma_step_of_child(y[k - x.len()], a[n - 1], prefix, seg);
            }
        }
        assert forall|i: int, j: int|
            0 <= i < all.len() && 0 <= j < all.len() && i != j implies #[trigger] all[i].0
            != #[trigger] all[j].0 by {
            if i < x.len() && j < x.len() {
                assert(all[i] == x[i] && all[j] == x[j]);
            } else if i >= x.len() && j >= x.len() {
                assert(all[i] == y[i - x.len()] && all[j] == y[j - x.len()]);
            } else {
                let (xi, yi) = if i < x.len() { (i, j) } else { (j, i) };
                assert(all[xi] == x[xi]);
                assert(steps_below(x[xi], prefix.len(), (n - 1) as nat));
                assert(all[yi] == y[yi - x.len()]);
                assert(record_leads(a[n - 1], prefix.push(seg), y[yi - x.len()]));
                lemma_step_of_child(y[yi - x.len()], a[n - 1], prefix, seg);
                assert(all[xi].0[prefix.len() as int] != all[yi].0[prefix.len() as int]);
            }
        }
    }
}

proof fn lemma_entries_distinct(e: Seq<(Seq<char>, Tree)>, n: nat, prefix: Seq<Seq<char>>)
    requires
        n <= e.len(),
        keys_unique(e),
        wf_entries(e, n),
    ensures
        paths_distinct(flat_entries(e, n, prefix)),
        forall|k: int|
            0 <= k < flat_entries(e, n, prefix).len() ==> steps_before(
                #[trigger] flat_entries(e, n, prefix)[k],
                prefix.len(),
                e,
                n,
            ),
    decreases e, n,
{
    if n > 0 {
        let seg = e[n - 1].0;
        let x = flat_entries(e, (n - 1) as nat, prefix);
        let y = flat(e[n - 1].1, prefix.push(seg));
        lemma_entries_distinct(e, (n - 1) as nat, prefix);
        lemma_flat_distinct(e[n - 1].1, prefix.push(seg));
        lemma_flat_leads(e[n - 1].1, prefix.push(seg));
        let all = flat_entries(e, n, prefix);
        assert(all == x + y);
        assert forall|k: int| 0 <= k < all.len() implies steps_before(
            #[trigger] all[k],
            prefix.len(),
            e,
            n,
        ) by {
            if k < x.len() {
                assert(all[k] == x[k]);
                assert(steps_before(x[k], prefix.len(), e, (n - 1) as nat));
            } else {
                assert(all[k] == y[k - x.len()]);
                assert(record_leads(e[n - 1].1, prefix.push(seg), y[k - x.len()]));
                lemma_step_of_child(y[k - x.len()], e[n - 1].1, prefix, seg);
                assert forall|m: int| n <= m < e.len() implies all[k].0[prefix.len() as int]
                    != #[trigger] e[m].0 by {
                    assert(e[n - 1].0 != e[m].0);
                }
            }
        }
        assert forall|i: int, j: int|
            0 <= i < all.len() && 0 <= j < all.len() && i != j implies #[trigger] all[i].0
            != #[trigger] all[j].0 by {
            if i < x.len() && j < x.len() {
                assert(all[i] == x[i] && all[j] == x[j]);
            } else if i >= x.len() && j >= x.len() {
                assert(all[i] == y[i - x.len()] && all[j] == y[j - x.len()]);
            } else {
                let (xi, yi) = if i < x.len() { (i, j) } else { (j, i) };
                assert(all[xi] == x[xi]);
                assert(steps_before(x[xi], prefix.len(), e, (n - 1) as nat));
                assert(all[xi].0[prefix.len() as int] != e[n - 1].0);
                assert(all[yi] == y[yi - x.len()]);
                assert(record_leads(e[n - 1].1, prefix.push(seg), y[yi - x.len()]));
                lemma_step_of_child(y[yi - x.len()], e[n - 1].1, prefix, seg);
                assert(all[xi].0[prefix.len() as int] != all[yi].0[prefix.len() as int]);
            }
        }
    }
}

/// Flattening a tree whose objects hold each key once gives each scalar its
/// own path: no two records share one.
pub proof fn lemma_paths_distinct(t: Tree)
    requires
        wf_tree(t),
    ensures
        paths_distinct(flat(t, Seq::empty())),
{
    lemma_flat_distinct(t, Seq::empty());
}

} // verus!
