//! Writing a tree back out as lines, and the law that the parser reads exactly that tree
//! back: every key's values, in the order they were written.
use vstd::prelude::*;
use crate::text::{is_space, split_on, trim, trim_end, trim_start};
use crate::vmf::{
    Fields, LineKind, Node, VmfError, add_value, find_key, last_quote_pair, leaf_divide,
    lemma_find_key_push, lemma_last_quote_pair, line_kind, parse_from,
    quote_pair_at, values_of, parse_text, text_lines,
};

verus! {

/// The line `"key" "value"`.
pub open spec fn leaf_line(key: Seq<char>, value: Seq<char>) -> Seq<char> {
    seq!['"'] + key + seq!['"', ' ', '"'] + value + seq!['"']
}

pub open spec fn no_quote(s: Seq<char>) -> bool {
    forall|i: int| 0 <= i < s.len() ==> s[i] != '"' && s[i] != '\n'
}

/// A key that can be written on a line of its own: not empty, not `}`, without quotes or
/// line breaks, and without whitespace at either end.
pub open spec fn valid_key(k: Seq<char>) -> bool {
    k.len() > 0 && k != seq!['}'] && no_quote(k) && !is_space(k[0]) && !is_space(k.last())
}

/// The lines of the value `n` stored under `key`.
pub open spec fn render_node(key: Seq<char>, n: Node) -> Seq<Seq<char>>
    decreases n,
{
    match n {
        Node::Leaf(v) => seq![leaf_line(key, v)],
        Node::Branch(f) => seq![key, seq!['{']] + render_fields(f) + seq![seq!['}']],
    }
}

/// The lines of the values `vs` under `key`, in order.
pub open spec fn render_values(key: Seq<char>, vs: Seq<Node>) -> Seq<Seq<char>>
    decreases vs,
{
    if vs.len() == 0 {
        Seq::empty()
    } else {
        render_values(key, vs.drop_last()) + render_node(key, vs.last())
    }
}

/// The lines of a branch's fields, field after field.
pub open spec fn render_fields(f: Fields) -> Seq<Seq<char>>
    decreases f,
{
    if f.len() == 0 {
        Seq::empty()
    } else {
        render_fields(f.drop_last()) + render_values(f.last().0, f.last().1)
    }
}

/// A value that can be written under `key` and read back: a leaf whose key and value hold
/// no quote or line break, or a branch whose key can stand on a line of its own.
pub open spec fn valid_node(key: Seq<char>, n: Node) -> bool
    decreases n,
{
    match n {
        Node::Leaf(v) => no_quote(key) && no_quote(v),
        Node::Branch(f) => valid_key(key) && valid_fields(f),
    }
}

pub open spec fn valid_values(key: Seq<char>, vs: Seq<Node>) -> bool
    decreases vs,
{
    if vs.len() == 0 {
        true
    } else {
        valid_values(key, vs.drop_last()) && valid_node(key, vs.last())
    }
}

/// A tree that can be written and read back: each key once per branch with at least one
/// value, every value valid under its key (see `valid_node`).
pub open spec fn valid_fields(f: Fields) -> bool
    decreases f,
{
    if f.len() == 0 {
        true
    } else {
        valid_fields(f.drop_last()) && f.last().1.len() > 0 && valid_values(
            f.last().0,
            f.last().1,
        ) && find_key(f.drop_last(), f.last().0) < 0
    }
}

/// `cur` with every value of `vs` added under `key`, in order.
pub open spec fn merge_values(cur: Fields, key: Seq<char>, vs: Seq<Node>) -> Fields
    decreases vs.len(),
{
    if vs.len() == 0 {
        cur
    } else {
        add_value(merge_values(cur, key, vs.drop_last()), key, vs.last())
    }
}

/// `cur` with every value of `f` added, field after field.
pub open spec fn merge_fields(cur: Fields, f: Fields) -> Fields
    decreases f.len(),
{
    if f.len() == 0 {
        cur
    } else {
        merge_values(merge_fields(cur, f.drop_last()), f.last().0, f.last().1)
    }
}

pub proof fn lemma_leaf_line_kind(key: Seq<char>, value: Seq<char>)
    requires
        no_quote(value),
    ensures
        line_kind(leaf_line(key, value)) == LineKind::Leaf(key, value),
{
    let l = leaf_line(key, value);
    let k = key.len() as int;
    let n = l.len() as int;
    assert(n == k + value.len() + 5);
    assert(l[0] == '"');
    assert(l.last() == '"');
    assert(l != seq!['}']) by {
        if l == seq!['}'] {
            assert(l[0] == '}');
        }
    }
    assert forall|r: int| k + 1 < r <= n - 4 implies !quote_pair_at(l, r) by {
        if r >= k + 4 {
            assert(l[r] == value[r - k - 4]);
        } else if r == k + 3 {
            if value.len() >= 2 {
                assert(l[r + 2] == value[1]);
            }
        } else {
            assert(l[r] == ' ');
        }
    }
    lemma_last_quote_pair_skip(l, n - 4, k + 1);
    assert(quote_pair_at(l, k + 1));
    assert(leaf_divide(l) == k + 1);
    assert(l.subrange(1, k + 1) =~= key);
    assert(l.subrange(k + 4, n - 1) =~= value);
}

pub proof fn lemma_last_quote_pair_skip(l: Seq<char>, p: int, q: int)
    requires
        1 <= q <= p,
        forall|r: int| q < r <= p ==> !quote_pair_at(l, r),
    ensures
        last_quote_pair(l, p) == last_quote_pair(l, q),
    decreases p - q,
{
    if p > q {
        lemma_last_quote_pair_skip(l, p - 1, q);
    }
}

pub proof fn lemma_key_line_kind(key: Seq<char>)
    requires
        valid_key(key),
    ensures
        line_kind(key) == LineKind::Open(key),
{
    assert(key[0] != '"');
}

pub proof fn lemma_lines_split(
    lines: Seq<Seq<char>>,
    i: int,
    a: Seq<Seq<char>>,
    b: Seq<Seq<char>>,
)
    requires
        0 <= i,
        i + a.len() + b.len() <= lines.len(),
        lines.subrange(i, i + a.len() + b.len()) == a + b,
    ensures
        lines.subrange(i, i + a.len()) == a,
        lines.subrange(i + a.len(), i + a.len() + b.len()) == b,
{
    let whole = lines.subrange(i, i + a.len() + b.len());
    assert forall|k: int| 0 <= k < a.len() implies lines.subrange(i, i + a.len())[k] == a[k] by {
        assert(whole[k] == (a + b)[k]);
    }
    assert forall|k: int| 0 <= k < b.len() implies lines.subrange(
        i + a.len(),
        i + a.len() + b.len(),
    )[k] == b[k] by {
        assert(whole[a.len() + k] == (a + b)[a.len() + k]);
    }
    assert(lines.subrange(i, i + a.len()) =~= a);
    assert(lines.subrange(i + a.len(), i + a.len() + b.len()) =~= b);
}

pub proof fn lemma_merge_values_fresh(d: Fields, key: Seq<char>, vs: Seq<Node>)
    requires
        find_key(d, key) < 0,
        vs.len() > 0,
    ensures
        merge_values(d, key, vs) == d.push((key, vs)),
    decreases vs.len(),
{
    let last = vs.last();
    if vs.len() == 1 {
        assert(vs.drop_last() =~= Seq::<Node>::empty());
        assert(merge_values(d, key, vs.drop_last()) == d);
        assert(seq![last] =~= vs);
    } else {
        let front = vs.drop_last();
        lemma_merge_values_fresh(d, key, front);
        lemma_find_key_push(d, key, (key, front));
        assert(front.push(last) =~= vs);
        assert(d.push((key, front)).update(d.len() as int, (key, front.push(last))) =~= d.push(
            (key, vs),
        ));
    }
}

pub proof fn lemma_merge_identity(f: Fields)
    requires
        valid_fields(f),
    ensures
        merge_fields(Seq::empty(), f) == f,
    decreases f.len(),
{
    if f.len() > 0 {
        let d = f.drop_last();
        lemma_merge_identity(d);
        lemma_merge_values_fresh(d, f.last().0, f.last().1);
        assert(d.push(f.last()) =~= f);
    }
}

pub proof fn lemma_parse_node(
    lines: Seq<Seq<char>>,
    i: int,
    key: Seq<char>,
    n: Node,
    cur: Fields,
    stack: Seq<(Fields, Seq<char>)>,
)
    requires
        valid_node(key, n),
        0 <= i,
        i + render_node(key, n).len() <= lines.len(),
        lines.subrange(i, i + render_node(key, n).len()) == render_node(key, n),
    ensures
        parse_from(lines, i, cur, stack) == parse_from(
            lines,
            i + render_node(key, n).len(),
            add_value(cur, key, n),
            stack,
        ),
    decreases n,
{
    let r = render_node(key, n);
    assert(lines[i] == r[0]);
    match n {
        Node::Leaf(v) => {
            lemma_leaf_line_kind(key, v);
        },
        Node::Branch(f) => {
            let rf = render_fields(f);
            let m = rf.len() as int;
            assert(lines[i + 1] == r[1]);
            lemma_key_line_kind(key);
            let inner = stack.push((cur, key));
            assert(parse_from(lines, i, cur, stack) == parse_from(lines, i + 2, Seq::empty(), inner));
            let head: Seq<Seq<char>> = seq![key, seq!['{']];
            assert(r == head + rf + seq![seq!['}']]);
            lemma_lines_split(lines, i, head + rf, seq![seq!['}']]);
            lemma_lines_split(lines, i, head, rf);
            lemma_parse_fields(lines, i + 2, f, Seq::empty(), inner);
            lemma_merge_identity(f);
            assert(lines[i + 2 + m] == r[2 + m]);
            assert(r[2 + m] == seq!['}']);
            assert(inner.drop_last() =~= stack);
        },
    }
}

pub proof fn lemma_parse_values(
    lines: Seq<Seq<char>>,
    i: int,
    key: Seq<char>,
    vs: Seq<Node>,
    cur: Fields,
    stack: Seq<(Fields, Seq<char>)>,
)
    requires
        valid_values(key, vs),
        0 <= i,
        i + render_values(key, vs).len() <= lines.len(),
        lines.subrange(i, i + render_values(key, vs).len()) == render_values(key, vs),
    ensures
        parse_from(lines, i, cur, stack) == parse_from(
            lines,
            i + render_values(key, vs).len(),
            merge_values(cur, key, vs),
            stack,
        ),
    decreases vs,
{
    if vs.len() > 0 {
        let front = vs.drop_last();
        let a = render_values(key, front);
        let b = render_node(key, vs.last());
        lemma_lines_split(lines, i, a, b);
        lemma_parse_values(lines, i, key, front, cur, stack);
        lemma_parse_node(lines, i + a.len(), key, vs.last(), merge_values(cur, key, front), stack);
    }
}

pub proof fn lemma_parse_fields(
    lines: Seq<Seq<char>>,
    i: int,
    f: Fields,
    cur: Fields,
    stack: Seq<(Fields, Seq<char>)>,
)
    requires
        valid_fields(f),
        0 <= i,
        i + render_fields(f).len() <= lines.len(),
        lines.subrange(i, i + render_fields(f).len()) == render_fields(f),
    ensures
        parse_from(lines, i, cur, stack) == parse_from(
            lines,
            i + render_fields(f).len(),
            merge_fields(cur, f),
            stack,
        ),
    decreases f,
{
    if f.len() > 0 {
        let front = f.drop_last();
        let a = render_fields(front);
        let b = render_values(f.last().0, f.last().1);
        lemma_lines_split(lines, i, a, b);
        lemma_parse_fields(lines, i, front, cur, stack);
        lemma_parse_values(
            lines,
            i + a.len(),
            f.last().0,
            f.last().1,
            merge_fields(cur, front),
            stack,
        );
    }
}

/// The text of `lines`, each ended by a line break.
pub open spec fn text_of(lines: Seq<Seq<char>>) -> Seq<char>
    decreases lines.len(),
{
    if lines.len() == 0 {
        Seq::empty()
    } else {
        text_of(lines.drop_last()) + lines.last() + seq!['\n']
    }
}

/// A line that reads as itself: no line break inside, no whitespace at either end.
pub open spec fn plain_line(l: Seq<char>) -> bool {
    (forall|i: int| 0 <= i < l.len() ==> l[i] != '\n') && (l.len() > 0 ==> !is_space(l[0])
        && !is_space(l.last()))
}

pub proof fn lemma_plain_line_trim(l: Seq<char>)
    requires
        plain_line(l),
    ensures
        trim(l) == l,
{
    assert(trim_start(l) == l);
    assert(trim_end(l) == l);
}

pub proof fn lemma_split_append(s: Seq<char>, l: Seq<char>)
    requires
        forall|i: int| 0 <= i < l.len() ==> l[i] != '\n',
    ensures
        split_on(s + l, '\n') == split_on(s, '\n').update(
            split_on(s, '\n').len() - 1,
            split_on(s, '\n').last() + l,
        ),
    decreases l.len(),
{
    crate::text::lemma_split_on_nonempty(s, '\n');
    if l.len() == 0 {
        assert(s + l =~= s);
        assert(split_on(s, '\n').last() + l =~= split_on(s, '\n').last());
        assert(split_on(s, '\n').update(split_on(s, '\n').len() - 1, split_on(s, '\n').last())
            =~= split_on(s, '\n'));
    } else {
        let front = l.drop_last();
        assert forall|i: int| 0 <= i < front.len() implies front[i] != '\n' by {
            assert(front[i] == l[i]);
        }
        assert(l[l.len() - 1] != '\n');
        lemma_split_append(s, front);
        assert((s + l).drop_last() =~= s + front);
        assert((s + l).last() == l.last());
        let p = split_on(s, '\n');
        let q = split_on(s + front, '\n');
        assert(split_on(s + l, '\n') == q.update(q.len() - 1, q.last().push(l.last())));
        assert(q.len() == p.len());
        assert(q.last() == p.last() + front);
        assert(q.last().push(l.last()) =~= p.last() + l);
        assert(split_on(s + front, '\n').update(p.len() - 1, p.last() + l) =~= p.update(
            p.len() - 1,
            p.last() + l,
        ));
    }
}

pub proof fn lemma_split_text_of(lines: Seq<Seq<char>>)
    requires
        forall|k: int| 0 <= k < lines.len() ==> plain_line(#[trigger] lines[k]),
    ensures
        split_on(text_of(lines), '\n') == lines.push(Seq::empty()),
    decreases lines.len(),
{
    if lines.len() == 0 {
        assert(split_on(Seq::<char>::empty(), '\n') =~= lines.push(Seq::empty()));
    } else {
        let d = lines.drop_last();
        assert forall|k: int| 0 <= k < d.len() implies plain_line(#[trigger] d[k]) by {
            assert(d[k] == lines[k]);
        }
        lemma_split_text_of(d);
        let t = text_of(d) + lines.last();
        assert(plain_line(lines[lines.len() - 1]));
        lemma_split_append(text_of(d), lines.last());
        assert(split_on(t, '\n') =~= d.push(lines.last()));
        assert((t + seq!['\n']).drop_last() =~= t);
        assert(split_on(t + seq!['\n'], '\n') == split_on(t, '\n').push(Seq::empty()));
        assert(d.push(lines.last()) =~= lines);
    }
}

pub open spec fn all_plain(lines: Seq<Seq<char>>) -> bool {
    forall|k: int| 0 <= k < lines.len() ==> plain_line(#[trigger] lines[k])
}

pub proof fn lemma_all_plain_concat(a: Seq<Seq<char>>, b: Seq<Seq<char>>)
    requires
        all_plain(a),
        all_plain(b),
    ensures
        all_plain(a + b),
{
    assert forall|k: int| 0 <= k < (a + b).len() implies plain_line(#[trigger] (a + b)[k]) by {
        if k < a.len() {
            assert((a + b)[k] == a[k]);
        } else {
            assert((a + b)[k] == b[k - a.len()]);
        }
    }
}

pub proof fn lemma_render_node_plain(key: Seq<char>, n: Node)
    requires
        valid_node(key, n),
    ensures
        all_plain(render_node(key, n)),
    decreases n,
{
    match n {
        Node::Leaf(v) => {
            let l = leaf_line(key, v);
            assert forall|i: int| 0 <= i < l.len() implies l[i] != '\n' by {
                if 1 <= i < key.len() + 1 {
                    assert(l[i] == key[i - 1]);
                } else if key.len() + 4 <= i < key.len() + 4 + v.len() {
                    assert(l[i] == v[i - key.len() - 4]);
                }
            }
            assert(plain_line(l));
            assert(render_node(key, n)[0] == l);
        },
        Node::Branch(f) => {
            lemma_render_fields_plain(f);
            let head: Seq<Seq<char>> = seq![key, seq!['{']];
            assert(plain_line(key));
            assert(plain_line(seq!['{']));
            assert(all_plain(head)) by {
                assert forall|k: int| 0 <= k < head.len() implies plain_line(#[trigger] head[k]) by {
                    if k == 0 {
                        assert(head[k] == key);
                    } else {
                        assert(head[k] == seq!['{']);
                    }
                }
            }
            let tail: Seq<Seq<char>> = seq![seq!['}']];
            assert(plain_line(seq!['}']));
            assert(all_plain(tail)) by {
                assert forall|k: int| 0 <= k < tail.len() implies plain_line(#[trigger] tail[k]) by {
                    assert(tail[k] == seq!['}']);
                }
            }
            lemma_all_plain_concat(head, render_fields(f));
            lemma_all_plain_concat(head + render_fields(f), tail);
        },
    }
}

pub proof fn lemma_render_values_plain(key: Seq<char>, vs: Seq<Node>)
    requires
        valid_values(key, vs),
    ensures
        all_plain(render_values(key, vs)),
    decreases vs,
{
    if vs.len() > 0 {
        lemma_render_values_plain(key, vs.drop_last());
        lemma_render_node_plain(key, vs.last());
        lemma_all_plain_concat(render_values(key, vs.drop_last()), render_node(key, vs.last()));
    }
}

pub proof fn lemma_render_fields_plain(f: Fields)
    requires
        valid_fields(f),
    ensures
        all_plain(render_fields(f)),
    decreases f,
{
    if f.len() > 0 {
        lemma_render_fields_plain(f.drop_last());
        lemma_render_values_plain(f.last().0, f.last().1);
        lemma_all_plain_concat(render_fields(f.drop_last()), render_values(f.last().0, f.last().1));
    }
}

/// Parsing the text of a written tree reads that very tree back: querying any key gives
/// exactly the values written under it, in the order in which they were written.
pub proof fn lemma_parse_text_reads_back(f: Fields)
    requires
        valid_fields(f),
    ensures
        parse_text(text_of(render_fields(f))) == Ok::<Fields, VmfError>(f),
        forall|key: Seq<char>|
            values_of(#[trigger] parse_text(text_of(render_fields(f)))->Ok_0, key) == values_of(
                f,
                key,
            ),
{
    let lines = render_fields(f);
    lemma_render_fields_plain(f);
    lemma_split_text_of(lines);
    let all = lines.push(Seq::empty());
    assert forall|k: int| 0 <= k < all.len() implies trim(#[trigger] all[k]) == all[k] by {
        if k < lines.len() {
            assert(all[k] == lines[k]);
            assert(plain_line(lines[k]));
            lemma_plain_line_trim(lines[k]);
        } else {
            assert(all[k] =~= Seq::<char>::empty());
            lemma_plain_line_trim(all[k]);
        }
    }
    assert(text_lines(text_of(lines)) =~= all);
    assert(all.subrange(0, lines.len() as int) =~= lines);
    lemma_parse_fields(all, 0, f, Seq::empty(), Seq::empty());
    lemma_merge_identity(f);
    let n = lines.len() as int;
    assert(all[n] =~= Seq::<char>::empty());
    assert(line_kind(all[n]) == LineKind::Blank);
    assert(parse_from(all, n + 1, f, Seq::empty()) == Ok::<Fields, VmfError>(f));
    assert(parse_from(all, n, f, Seq::empty()) == parse_from(all, n + 1, f, Seq::empty()));
}

} // verus!
