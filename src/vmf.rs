//! The bracketed key/value tree format: a tree of named, repeatable branches and
//! string leaves, parsed line by line with an explicit stack of open branches.
use vstd::prelude::*;
use crate::text::{
    chars_of, copy_range, split_chars, split_on, string_of, trim, trim_chars, words, words_of,
};

verus! {

/// A parsed entry as a mathematical value.
pub enum Node {
    /// Field names with their values, in the order in which each name first appeared.
    Branch(Seq<(Seq<char>, Seq<Node>)>),
    Leaf(Seq<char>),
}

/// What can go wrong while reading the tree or looking things up in it.
#[derive(Clone, Copy, Debug, PartialEq, Eq, Structural)]
pub enum VmfError {
    /// A `}` with no open branch to close.
    UnbalancedClose,
    /// Input ended while branches were still open.
    UnclosedBranch,
    /// A branch name not followed by a line holding exactly `{`.
    MissingOpenBrace,
    /// A lookup of a key that the branch does not hold.
    MissingKey,
    /// A lookup of one value under a key that holds several.
    NotSingle,
    /// A key lookup on a leaf.
    NotBranch,
    /// A string or vertex read from a branch.
    NotLeaf,
    /// A vertex that is not three whitespace-separated fields.
    BadVertex,
    /// A face with fewer than three vertices.
    TooFewVertices,
    /// More vertices than 32-bit indices can address.
    TooManyVertices,
}

/// A node of the parsed tree. A branch holds each field name once, with every value
/// given under it in order.
pub enum VmfEntry {
    Branch(Vec<(String, Vec<VmfEntry>)>),
    Leaf(String),
}

/// A parsed file: its top-level branch.
pub struct Vmf {
    pub root: VmfEntry,
}

pub open spec fn entry_model(e: VmfEntry) -> Node
    decreases e,
{
    match e {
        VmfEntry::Leaf(s) => Node::Leaf(s@),
        VmfEntry::Branch(fields) => Node::Branch(
            Seq::new(
                fields@.len(),
                |i: int|
                    (
                        fields@[i].0@,
                        Seq::new(
                            fields@[i].1@.len(),
                            |j: int|
                                if 0 <= i < fields@.len() && 0 <= j < fields@[i].1@.len() {
                                    entry_model(fields@[i].1@[j])
                                } else {
                                    Node::Leaf(Seq::empty())
                                },
                        ),
                    ),
            ),
        ),
    }
}

impl View for VmfEntry {
    type V = Node;

    open spec fn view(&self) -> Node {
        entry_model(*self)
    }
}

pub open spec fn fields_model(f: Seq<(String, Vec<VmfEntry>)>) -> Seq<(Seq<char>, Seq<Node>)> {
    Seq::new(f.len(), |i: int| (f[i].0@, f[i].1@.map_values(|e: VmfEntry| e@)))
}

pub proof fn lemma_branch_model(f: Vec<(String, Vec<VmfEntry>)>)
    ensures
        VmfEntry::Branch(f)@ == Node::Branch(fields_model(f@)),
{
    let n = VmfEntry::Branch(f)@;
    assert(n->Branch_0 =~= fields_model(f@)) by {
        assert forall|i: int| 0 <= i < f@.len() implies #[trigger] n->Branch_0[i]
            == fields_model(f@)[i] by {
            assert(n->Branch_0[i].1 =~= fields_model(f@)[i].1);
        }
    }
}

/// The index of the first field named `key`, or -1.
pub open spec fn find_key(f: Seq<(Seq<char>, Seq<Node>)>, key: Seq<char>) -> int
    decreases f.len(),
{
    if f.len() == 0 {
        -1
    } else {
        let k = find_key(f.drop_last(), key);
        if k >= 0 {
            k
        } else if f.last().0 == key {
            f.len() - 1
        } else {
            -1
        }
    }
}

pub proof fn lemma_find_key_range(f: Seq<(Seq<char>, Seq<Node>)>, key: Seq<char>)
    ensures
        -1 <= find_key(f, key) < f.len(),
        find_key(f, key) >= 0 ==> f[find_key(f, key)].0 == key,
        find_key(f, key) < 0 ==> forall|i: int| 0 <= i < f.len() ==> #[trigger] f[i].0 != key,
    decreases f.len(),
{
    if f.len() > 0 {
        lemma_find_key_range(f.drop_last(), key);
        assert forall|i: int| 0 <= i < f.len() - 1 implies #[trigger] f[i] == f.drop_last()[i] by {}
    }
}

pub proof fn lemma_find_key_prefix(f: Seq<(Seq<char>, Seq<Node>)>, key: Seq<char>, n: int)
    requires
        0 <= n <= f.len(),
        find_key(f.take(n), key) >= 0,
    ensures
        find_key(f, key) == find_key(f.take(n), key),
    decreases f.len(),
{
    if f.len() == n {
        assert(f.take(n) =~= f);
    } else {
        assert(f.drop_last().take(n) =~= f.take(n));
        lemma_find_key_prefix(f.drop_last(), key, n);
    }
}

/// `f` with `n` added as the last value under `key`.
pub open spec fn add_value(f: Seq<(Seq<char>, Seq<Node>)>, key: Seq<char>, n: Node) -> Seq<
    (Seq<char>, Seq<Node>),
> {
    let k = find_key(f, key);
    if k >= 0 {
        f.update(k, (key, f[k].1.push(n)))
    } else {
        f.push((key, seq![n]))
    }
}

/// The values under `key` in a branch's fields: none where the key is absent.
pub open spec fn values_of(f: Seq<(Seq<char>, Seq<Node>)>, key: Seq<char>) -> Seq<Node> {
    let k = find_key(f, key);
    if k >= 0 {
        f[k].1
    } else {
        Seq::empty()
    }
}

/// How one trimmed line reads.
pub enum LineKind {
    Close,
    Leaf(Seq<char>, Seq<char>),
    Blank,
    Open(Seq<char>),
}

/// `"` ` ` `"` at `p`, with a quote before and after it.
pub open spec fn quote_pair_at(l: Seq<char>, p: int) -> bool {
    1 <= p && p + 4 <= l.len() && l[p] == '"' && l[p + 1] == ' ' && l[p + 2] == '"'
}

/// The last position at or before `p` where `quote_pair_at` holds, or -1.
pub open spec fn last_quote_pair(l: Seq<char>, p: int) -> int
    decreases p,
{
    if p < 1 {
        -1
    } else if quote_pair_at(l, p) {
        p
    } else {
        last_quote_pair(l, p - 1)
    }
}

pub proof fn lemma_last_quote_pair(l: Seq<char>, p: int)
    ensures
        last_quote_pair(l, p) >= 0 ==> quote_pair_at(l, last_quote_pair(l, p)),
    decreases p,
{
    if p >= 1 && !quote_pair_at(l, p) {
        lemma_last_quote_pair(l, p - 1);
    }
}

/// Where a leaf line `"key" "value"` divides, or -1 if the line is no leaf line.
/// The key runs as far as it can, so the last `" "` of the line divides it.
pub open spec fn leaf_divide(l: Seq<char>) -> int {
    if l.len() >= 5 && l[0] == '"' && l.last() == '"' {
        last_quote_pair(l, l.len() - 4)
    } else {
        -1
    }
}

pub open spec fn line_kind(l: Seq<char>) -> LineKind {
    if l == seq!['}'] {
        LineKind::Close
    } else if leaf_divide(l) >= 0 {
        LineKind::Leaf(l.subrange(1, leaf_divide(l)), l.subrange(leaf_divide(l) + 3, l.len() - 1))
    } else if l.len() == 0 {
        LineKind::Blank
    } else {
        LineKind::Open(l)
    }
}

pub type Fields = Seq<(Seq<char>, Seq<Node>)>;

/// Reading `lines` from `i` on, with `cur` the branch being filled and `stack` its open
/// ancestors, each with the name under which the branch above it will be stored.
pub open spec fn parse_from(
    lines: Seq<Seq<char>>,
    i: int,
    cur: Fields,
    stack: Seq<(Fields, Seq<char>)>,
) -> Result<Fields, VmfError>
    decreases lines.len() - i,
{
    if i >= lines.len() || i < 0 {
        if stack.len() == 0 {
            Ok(cur)
        } else {
            Err(VmfError::UnclosedBranch)
        }
    } else {
        match line_kind(lines[i]) {
            LineKind::Close => if stack.len() == 0 {
                Err(VmfError::UnbalancedClose)
            } else {
                let top = stack.last();
                parse_from(
                    lines,
                    i + 1,
                    add_value(top.0, top.1, Node::Branch(cur)),
                    stack.drop_last(),
                )
            },
            LineKind::Leaf(k, v) => parse_from(lines, i + 1, add_value(cur, k, Node::Leaf(v)), stack),
            LineKind::Blank => parse_from(lines, i + 1, cur, stack),
            LineKind::Open(name) => if i + 1 < lines.len() && lines[i + 1] == seq!['{'] {
                parse_from(lines, i + 2, Seq::empty(), stack.push((cur, name)))
            } else {
                Err(VmfError::MissingOpenBrace)
            },
        }
    }
}

/// The trimmed lines of a text.
pub open spec fn text_lines(s: Seq<char>) -> Seq<Seq<char>> {
    split_on(s, '\n').map_values(|l: Seq<char>| trim(l))
}

/// The top-level fields that a text parses to, or the error it gives.
pub open spec fn parse_text(s: Seq<char>) -> Result<Fields, VmfError> {
    parse_from(text_lines(s), 0, Seq::empty(), Seq::empty())
}

pub open spec fn stack_model(s: Seq<(Vec<(String, Vec<VmfEntry>)>, String)>) -> Seq<
    (Fields, Seq<char>),
> {
    s.map_values(|p: (Vec<(String, Vec<VmfEntry>)>, String)| (fields_model(p.0@), p.1@))
}

/// Looks `key` up in `fields` by name.
fn find_field(fields: &Vec<(String, Vec<VmfEntry>)>, key: &String) -> (r: Option<usize>)
    ensures
        match r {
            Some(k) => find_key(fields_model(fields@), key@) == k,
            None => find_key(fields_model(fields@), key@) == -1,
        },
{
    let ghost fm = fields_model(fields@);
    let mut i: usize = 0;
    while i < fields.len()
        invariant
            i <= fields.len(),
            fm == fields_model(fields@),
            find_key(fm.take(i as int), key@) == -1,
        decreases fields.len() - i,
    {
        assert(fm.take(i as int + 1).drop_last() =~= fm.take(i as int));
        if fields[i].0 == *key {
            proof {
                assert(fm.take(i as int + 1).last() == fm[i as int]);
                lemma_find_key_prefix(fm, key@, i as int + 1);
            }
            return Some(i);
        }
        i += 1;
    }
    assert(fm.take(i as int) =~= fm);
    None
}

/// Adds `value` as the last value under `key`.
fn add_field_value(fields: &mut Vec<(String, Vec<VmfEntry>)>, key: String, value: VmfEntry)
    ensures
        fields_model(final(fields)@) == add_value(fields_model(old(fields)@), key@, value@),
{
    let ghost fm = fields_model(fields@);
    match find_field(fields, &key) {
        Some(k) => {
            proof {
                lemma_find_key_range(fm, key@);
            }
            let mut pair = fields.remove(k);
            pair.1.push(value);
            fields.insert(k, pair);
            proof {
                assert(fields_model(fields@) =~= add_value(fm, key@, value@)) by {
                    assert(fields_model(fields@)[k as int].1 =~= fm[k as int].1.push(value@));
                }
            }
        },
        None => {
            fields.push((key, vec![value]));
            proof {
                assert(fields_model(fields@) =~= add_value(fm, key@, value@)) by {
                    let last = fields_model(fields@).last();
                    assert(last.1 =~= seq![value@]);
                }
            }
        },
    }
}

/// Where a leaf line divides (see `leaf_divide`).
fn find_leaf_divide(l: &Vec<char>) -> (r: Option<usize>)
    ensures
        match r {
            Some(p) => leaf_divide(l@) == p,
            None => leaf_divide(l@) == -1,
        },
{
    let n = l.len();
    if n >= 5 && l[0] == '"' && l[n - 1] == '"' {
        let mut p: usize = n - 4;
        assert(leaf_divide(l@) == last_quote_pair(l@, n - 4));
        while p >= 1
            invariant
                p <= n - 4,
                n == l.len(),
                leaf_divide(l@) == last_quote_pair(l@, n - 4),
                last_quote_pair(l@, n - 4) == last_quote_pair(l@, p as int),
            decreases p,
        {
            if l[p] == '"' && l[p + 1] == ' ' && l[p + 2] == '"' {
                assert(quote_pair_at(l@, p as int));
                return Some(p);
            }
            p -= 1;
        }
        None
    } else {
        None
    }
}

fn is_single(l: &Vec<char>, c: char) -> (r: bool)
    ensures
        r == (l@ == seq![c]),
{
    if l.len() == 1 && l[0] == c {
        assert(l@ =~= seq![c]);
        true
    } else {
        assert(l@.len() != 1 || l@[0] != c);
        false
    }
}

impl Vmf {
    /// Parses the text of a file, line by line.
    pub fn from_string(text: &str) -> (r: Result<Vmf, VmfError>)
        ensures
            r is Ok <==> parse_text(text@) is Ok,
            r is Ok ==> r->Ok_0.root@ == Node::Branch(parse_text(text@)->Ok_0),
            r is Ok ==> keyed(r->Ok_0.root@),
            r is Err ==> r->Err_0 == parse_text(text@)->Err_0,
    {
        proof {
            lemma_parse_text_keyed(text@);
        }
        let chars = chars_of(text);
        let pieces = split_chars(&chars, '\n');
        let ghost ls = text_lines(text@);
        let mut cur: Vec<(String, Vec<VmfEntry>)> = Vec::new();
        let mut stack: Vec<(Vec<(String, Vec<VmfEntry>)>, String)> = Vec::new();
        let mut i: usize = 0;
        assert(stack_model(stack@) =~= Seq::empty());
        assert(fields_model(cur@) =~= Seq::empty());
        while i < pieces.len()
            invariant
                i <= pieces.len() == ls.len(),
                forall|k: int| 0 <= k < ls.len() ==> #[trigger] ls[k] == trim(pieces[k]@),
                parse_from(ls, i as int, fields_model(cur@), stack_model(stack@)) == parse_text(
                    text@,
                ),
            decreases pieces.len() - i,
        {
            let line = trim_chars(&pieces[i]);
            assert(line@ == ls[i as int]);
            if is_single(&line, '}') {
                let ghost old_model = stack_model(stack@);
                match stack.pop() {
                    None => {
                        return Err(VmfError::UnbalancedClose);
                    },
                    Some(top) => {
                        assert(stack_model(stack@) =~= old_model.drop_last());
                        assert(old_model.last() == (fields_model(top.0@), top.1@));
                        let (mut parent, key) = top;
                        proof {
                            lemma_branch_model(cur);
                        }
                        add_field_value(&mut parent, key, VmfEntry::Branch(cur));
                        cur = parent;
                        i += 1;
                    },
                }
            } else {
                match find_leaf_divide(&line) {
                    Some(p) => {
                        proof {
                            lemma_last_quote_pair(line@, line@.len() - 4);
                        }
                        let n = line.len();
                        let key_chars = copy_range(&line, 1, p);
                        let value_chars = copy_range(&line, p + 3, n - 1);
                        let key = string_of(key_chars.as_slice());
                        let value = string_of(value_chars.as_slice());
                        assert(line_kind(line@) == LineKind::Leaf(key@, value@));
                        add_field_value(&mut cur, key, VmfEntry::Leaf(value));
                        i += 1;
                    },
                    None => {
                        if line.len() == 0 {
                            assert(line_kind(line@) == LineKind::Blank);
                            i += 1;
                        } else {
                            assert(line_kind(line@) == LineKind::Open(line@));
                            if i + 1 >= pieces.len() {
                                return Err(VmfError::MissingOpenBrace);
                            }
                            let next = trim_chars(&pieces[i + 1]);
                            assert(next@ == ls[i + 1]);
                            if !is_single(&next, '{') {
                                return Err(VmfError::MissingOpenBrace);
                            }
                            let name = string_of(line.as_slice());
                            let ghost before = stack_model(stack@).push((fields_model(cur@), line@));
                            stack.push((cur, name));
                            cur = Vec::new();
                            assert(fields_model(cur@) =~= Seq::empty());
                            assert(stack_model(stack@) =~= before);
                            i += 2;
                        }
                    },
                }
            }
        }
        if stack.len() > 0 {
            return Err(VmfError::UnclosedBranch);
        }
        proof {
            lemma_branch_model(cur);
        }
        Ok(Vmf { root: VmfEntry::Branch(cur) })
    }
}

/// The single value under `key` in a branch.
pub open spec fn one_value(n: Node, key: Seq<char>) -> Result<Node, VmfError> {
    match n {
        Node::Leaf(_) => Err(VmfError::NotBranch),
        Node::Branch(f) => {
            let k = find_key(f, key);
            if k < 0 {
                Err(VmfError::MissingKey)
            } else if f[k].1.len() != 1 {
                Err(VmfError::NotSingle)
            } else {
                Ok(f[k].1[0])
            }
        },
    }
}

/// Every value under `key` in a branch, in order.
pub open spec fn all_values(n: Node, key: Seq<char>) -> Result<Seq<Node>, VmfError> {
    match n {
        Node::Leaf(_) => Err(VmfError::NotBranch),
        Node::Branch(f) => Ok(values_of(f, key)),
    }
}

/// The text of a leaf.
pub open spec fn leaf_text(n: Node) -> Result<Seq<char>, VmfError> {
    match n {
        Node::Leaf(s) => Ok(s),
        Node::Branch(_) => Err(VmfError::NotLeaf),
    }
}

/// The three coordinate fields of a vertex leaf: its whitespace-separated words.
pub open spec fn vertex_text(n: Node) -> Result<Seq<Seq<char>>, VmfError> {
    match n {
        Node::Leaf(s) => if words(s).len() == 3 {
            Ok(words(s))
        } else {
            Err(VmfError::BadVertex)
        },
        Node::Branch(_) => Err(VmfError::NotLeaf),
    }
}

impl VmfEntry {
    /// The one value under `key`; fails on a leaf, on an absent key and on a repeated one.
    pub fn get_one(&self, key: &str) -> (r: Result<&VmfEntry, VmfError>)
        ensures
            r is Ok <==> one_value(self@, key@) is Ok,
            r is Ok ==> r->Ok_0@ == one_value(self@, key@)->Ok_0,
            r is Err ==> r->Err_0 == one_value(self@, key@)->Err_0,
    {
        match self {
            VmfEntry::Leaf(_) => Err(VmfError::NotBranch),
            VmfEntry::Branch(fields) => {
                proof {
                    lemma_branch_model(*fields);
                    lemma_find_key_range(fields_model(fields@), key@);
                }
                let k = key.to_owned();
                match find_field(fields, &k) {
                    None => Err(VmfError::MissingKey),
                    Some(i) => {
                        if fields[i].1.len() != 1 {
                            Err(VmfError::NotSingle)
                        } else {
                            Ok(&fields[i].1[0])
                        }
                    },
                }
            },
        }
    }

    /// Every value under `key`, in order: none where the key is absent. Fails on a leaf.
    pub fn get_all(&self, key: &str) -> (r: Result<&[VmfEntry], VmfError>)
        ensures
            r is Ok <==> all_values(self@, key@) is Ok,
            r is Ok ==> r->Ok_0@.map_values(|e: VmfEntry| e@) == all_values(self@, key@)->Ok_0,
            r is Err ==> r->Err_0 == all_values(self@, key@)->Err_0,
    {
        match self {
            VmfEntry::Leaf(_) => Err(VmfError::NotBranch),
            VmfEntry::Branch(fields) => {
                proof {
                    lemma_branch_model(*fields);
                    lemma_find_key_range(fields_model(fields@), key@);
                }
                let k = key.to_owned();
                match find_field(fields, &k) {
                    None => {
                        let none: &[VmfEntry] = &[];
                        assert(none@.map_values(|e: VmfEntry| e@) =~= Seq::<Node>::empty());
                        Ok(none)
                    },
                    Some(i) => Ok(fields[i].1.as_slice()),
                }
            },
        }
    }

    /// The text of a leaf; fails on a branch.
    pub fn to_str(&self) -> (r: Result<&str, VmfError>)
        ensures
            r is Ok <==> leaf_text(self@) is Ok,
            r is Ok ==> r->Ok_0@ == leaf_text(self@)->Ok_0,
            r is Err ==> r->Err_0 == leaf_text(self@)->Err_0,
    {
        match self {
            VmfEntry::Leaf(s) => Ok(s.as_str()),
            VmfEntry::Branch(_) => Err(VmfError::NotLeaf),
        }
    }

    /// The three coordinate fields of a vertex leaf (`"x y z"`, separated by any
    /// whitespace), as text.
    pub fn to_vertex(&self) -> (r: Result<Vec<String>, VmfError>)
        ensures
            r is Ok <==> vertex_text(self@) is Ok,
            r is Ok ==> r->Ok_0@.len() == 3 && forall|k: int|
                0 <= k < 3 ==> #[trigger] r->Ok_0@[k]@ == vertex_text(self@)->Ok_0[k],
            r is Err ==> r->Err_0 == vertex_text(self@)->Err_0,
    {
        match self {
            VmfEntry::Leaf(s) => {
                let chars = chars_of(s.as_str());
                let parts = words_of(&chars);
                if parts.len() != 3 {
                    return Err(VmfError::BadVertex);
                }
                let mut out: Vec<String> = Vec::new();
                let mut k: usize = 0;
                while k < 3
                    invariant
                        k <= 3,
                        parts.len() == 3,
                        out@.len() == k,
                        forall|j: int| 0 <= j < k ==> #[trigger] out@[j]@ == parts[j]@,
                    decreases 3 - k,
                {
                    out.push(string_of(parts[k].as_slice()));
                    k += 1;
                }
                Ok(out)
            },
            VmfEntry::Branch(_) => Err(VmfError::NotLeaf),
        }
    }
}

/// How the lines nest, ignoring what they hold: reading from `i` on, `depth` branches open.
pub open spec fn nesting(lines: Seq<Seq<char>>, i: int, depth: int) -> Result<(), VmfError>
    decreases lines.len() - i,
{
    if i >= lines.len() || i < 0 {
        if depth == 0 {
            Ok(())
        } else {
            Err(VmfError::UnclosedBranch)
        }
    } else {
        match line_kind(lines[i]) {
            LineKind::Close => if depth == 0 {
                Err(VmfError::UnbalancedClose)
            } else {
                nesting(lines, i + 1, depth - 1)
            },
            LineKind::Leaf(_, _) => nesting(lines, i + 1, depth),
            LineKind::Blank => nesting(lines, i + 1, depth),
            LineKind::Open(_) => if i + 1 < lines.len() && lines[i + 1] == seq!['{'] {
                nesting(lines, i + 2, depth + 1)
            } else {
                Err(VmfError::MissingOpenBrace)
            },
        }
    }
}

pub proof fn lemma_parse_from_nesting(
    lines: Seq<Seq<char>>,
    i: int,
    cur: Fields,
    stack: Seq<(Fields, Seq<char>)>,
)
    ensures
        parse_from(lines, i, cur, stack) is Ok <==> nesting(lines, i, stack.len() as int) is Ok,
        parse_from(lines, i, cur, stack) is Err ==> parse_from(lines, i, cur, stack)->Err_0
            == nesting(lines, i, stack.len() as int)->Err_0,
    decreases lines.len() - i,
{
    if 0 <= i < lines.len() {
        match line_kind(lines[i]) {
            LineKind::Close => if stack.len() > 0 {
                let top = stack.last();
                lemma_parse_from_nesting(
                    lines,
                    i + 1,
                    add_value(top.0, top.1, Node::Branch(cur)),
                    stack.drop_last(),
                );
            },
            LineKind::Leaf(k, v) => {
                lemma_parse_from_nesting(lines, i + 1, add_value(cur, k, Node::Leaf(v)), stack);
            },
            LineKind::Blank => {
                lemma_parse_from_nesting(lines, i + 1, cur, stack);
            },
            LineKind::Open(name) => if i + 1 < lines.len() && lines[i + 1] == seq!['{'] {
                lemma_parse_from_nesting(lines, i + 2, Seq::empty(), stack.push((cur, name)));
            },
        }
    }
}

/// Whether a text parses depends only on how its lines nest, never on what they hold:
/// a `}` with no branch open fails with `UnbalancedClose`, and input that ends inside a
/// branch fails with `UnclosedBranch`. No input with either is read as a (cut) tree.
pub proof fn lemma_parse_fails_on_unbalanced(s: Seq<char>)
    ensures
        parse_text(s) is Ok <==> nesting(text_lines(s), 0, 0) is Ok,
        parse_text(s) is Err ==> parse_text(s)->Err_0 == nesting(text_lines(s), 0, 0)->Err_0,
{
    lemma_parse_from_nesting(text_lines(s), 0, Seq::empty(), Seq::empty());
}

/// Adding a value under a key puts it last among that key's values, after those already
/// there in the order they came, and leaves every other key's values as they were.
pub proof fn lemma_add_value_appends(f: Fields, key: Seq<char>, n: Node, other: Seq<char>)
    ensures
        values_of(add_value(f, key, n), key) == values_of(f, key).push(n),
        other != key ==> values_of(add_value(f, key, n), other) == values_of(f, other),
{
    lemma_find_key_range(f, key);
    lemma_find_key_range(f, other);
    let g = add_value(f, key, n);
    lemma_find_key_range(g, key);
    lemma_find_key_range(g, other);
    let k = find_key(f, key);
    if k >= 0 {
        lemma_find_key_update(f, key, k, (key, f[k].1.push(n)));
        lemma_find_key_update(f, other, k, (key, f[k].1.push(n)));
    } else {
        lemma_find_key_push(f, key, (key, seq![n]));
        lemma_find_key_push(f, other, (key, seq![n]));
        assert(values_of(f, key) =~= Seq::<Node>::empty());
        assert(values_of(g, key) =~= seq![n]);
    }
}

pub proof fn lemma_find_key_update(f: Fields, key: Seq<char>, k: int, e: (Seq<char>, Seq<Node>))
    requires
        0 <= k < f.len(),
        e.0 == f[k].0,
    ensures
        find_key(f.update(k, e), key) == find_key(f, key),
    decreases f.len(),
{
    let g = f.update(k, e);
    if k < f.len() - 1 {
        assert(g.drop_last() =~= f.drop_last().update(k, e));
        lemma_find_key_update(f.drop_last(), key, k, e);
    } else {
        assert(g.drop_last() =~= f.drop_last());
    }
}

pub proof fn lemma_find_key_push(f: Fields, key: Seq<char>, e: (Seq<char>, Seq<Node>))
    ensures
        find_key(f.push(e), key) == if find_key(f, key) >= 0 {
            find_key(f, key)
        } else if e.0 == key {
            f.len() as int
        } else {
            -1
        },
{
    assert(f.push(e).drop_last() =~= f);
}

/// Each key appears once among a branch's fields.
pub open spec fn unique_keys(f: Fields) -> bool {
    forall|i: int, j: int| 0 <= i < j < f.len() ==> #[trigger] f[i].0 != #[trigger] f[j].0
}

/// Every branch of the tree, at any depth, holds each key once.
pub open spec fn keyed(n: Node) -> bool
    decreases n,
{
    match n {
        Node::Leaf(_) => true,
        Node::Branch(f) => unique_keys(f) && forall|i: int, j: int|
            0 <= i < f.len() && 0 <= j < f[i].1.len() ==> keyed(#[trigger] f[i].1[j]),
    }
}

pub proof fn lemma_add_value_keyed(f: Fields, key: Seq<char>, n: Node)
    requires
        keyed(Node::Branch(f)),
        keyed(n),
    ensures
        keyed(Node::Branch(add_value(f, key, n))),
{
    lemma_find_key_range(f, key);
    let g = add_value(f, key, n);
    let k = find_key(f, key);
    assert forall|i: int, j: int| 0 <= i < g.len() && 0 <= j < g[i].1.len() implies keyed(
        #[trigger] g[i].1[j],
    ) by {
        if k >= 0 {
            if i == k && j == f[k].1.len() {
                assert(g[i].1[j] == n);
            } else {
                assert(g[i].1[j] == f[i].1[j]);
            }
        } else if i == f.len() {
            assert(g[i].1 == seq![n]);
        } else {
            assert(g[i].1[j] == f[i].1[j]);
        }
    }
    assert(unique_keys(g)) by {
        assert forall|i: int, j: int| 0 <= i < j < g.len() implies #[trigger] g[i].0
            != #[trigger] g[j].0 by {
            if k < 0 && j == f.len() {
                assert(g[i].0 == f[i].0);
            } else {
                assert(g[i].0 == f[i].0 && g[j].0 == f[j].0);
            }
        }
    }
}

pub proof fn lemma_parse_from_keyed(
    lines: Seq<Seq<char>>,
    i: int,
    cur: Fields,
    stack: Seq<(Fields, Seq<char>)>,
)
    requires
        keyed(Node::Branch(cur)),
        forall|k: int| 0 <= k < stack.len() ==> keyed(Node::Branch(#[trigger] stack[k].0)),
    ensures
        parse_from(lines, i, cur, stack) is Ok ==> keyed(
            Node::Branch(parse_from(lines, i, cur, stack)->Ok_0),
        ),
    decreases lines.len() - i,
{
    if 0 <= i < lines.len() {
        match line_kind(lines[i]) {
            LineKind::Close => if stack.len() > 0 {
                let top = stack.last();
                assert(keyed(Node::Branch(stack[stack.len() - 1].0)));
                lemma_add_value_keyed(top.0, top.1, Node::Branch(cur));
                let rest = stack.drop_last();
                assert forall|k: int| 0 <= k < rest.len() implies keyed(
                    Node::Branch(#[trigger] rest[k].0),
                ) by {
                    assert(rest[k] == stack[k]);
                }
                lemma_parse_from_keyed(
                    lines,
                    i + 1,
                    add_value(top.0, top.1, Node::Branch(cur)),
                    rest,
                );
            },
            LineKind::Leaf(k, v) => {
                lemma_add_value_keyed(cur, k, Node::Leaf(v));
                lemma_parse_from_keyed(lines, i + 1, add_value(cur, k, Node::Leaf(v)), stack);
            },
            LineKind::Blank => {
                lemma_parse_from_keyed(lines, i + 1, cur, stack);
            },
            LineKind::Open(name) => if i + 1 < lines.len() && lines[i + 1] == seq!['{'] {
                let more = stack.push((cur, name));
                assert forall|k: int| 0 <= k < more.len() implies keyed(
                    Node::Branch(#[trigger] more[k].0),
                ) by {
                    if k < stack.len() {
                        assert(more[k] == stack[k]);
                    }
                }
                let empty = Seq::<(Seq<char>, Seq<Node>)>::empty();
                assert(keyed(Node::Branch(empty)));
                lemma_parse_from_keyed(lines, i + 2, empty, more);
            },
        }
    }
}

/// A parsed tree holds each key once per branch, at every depth: repeated keys gather
/// their values under one field.
pub proof fn lemma_parse_text_keyed(s: Seq<char>)
    ensures
        parse_text(s) is Ok ==> keyed(Node::Branch(parse_text(s)->Ok_0)),
{
    let empty = Seq::<(Seq<char>, Seq<Node>)>::empty();
    assert(keyed(Node::Branch(empty)));
    lemma_parse_from_keyed(text_lines(s), 0, empty, Seq::empty());
}

} // verus!
