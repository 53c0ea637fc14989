//! The directory tree that the entry names of a zip archive describe, and
//! the record of which requested paths the archive holds.
use vstd::prelude::*;

use crate::date::{DateParts, date_text_opt, format_date_time};
use crate::path::{is_plain_name, lemma_path_names_plain, is_absolute, is_absolute_path, join, joined, normal_components, normal_names, path_components};
use crate::text::{
    chars_eq, chars_lt, chars_of, lemma_lex_asymmetric, lemma_lex_irreflexive, lemma_lex_total,
    lemma_lex_transitive, lex_lt, string_from_chars, trim_end, trim_end_chars, trim_start,
    trim_start_chars,
};

verus! {

/// What the archive says of one entry.
pub struct ZipEntry {
    /// The entry's name, `/`-separated; a directory's ends with `/`.
    pub name: String,
    pub is_dir: bool,
    pub size: u64,
    pub compressed_size: u64,
    pub last_modified: Option<DateParts>,
}

/// A node of the archive tree: the root, a directory or a file.
pub struct ArchiveNode {
    pub name: String,
    pub is_dir: bool,
    pub last_modified: Option<String>,
    pub size: u64,
    pub compressed_size: u64,
    /// The children, in increasing order of name, no name twice.
    pub children: Vec<ArchiveNode>,
}

/// A node of the archive tree as plain values, its children by name.
pub struct NodeView {
    pub name: Seq<char>,
    pub is_dir: bool,
    pub last_modified: Option<Seq<char>>,
    pub size: u64,
    pub compressed_size: u64,
    pub children: Map<Seq<char>, NodeView>,
}

pub open spec fn opt_string_view(s: Option<String>) -> Option<Seq<char>> {
    match s {
        Some(s) => Some(s@),
        None => None,
    }
}

impl ArchiveNode {
    /// The node as plain values.
    pub open spec fn view_node(self) -> NodeView
        decreases self,
    {
        NodeView {
            name: self.name@,
            is_dir: self.is_dir,
            last_modified: opt_string_view(self.last_modified),
            size: self.size,
            compressed_size: self.compressed_size,
            children: children_map(self.children@),
        }
    }

    /// Every node's children are in strictly increasing order of name.
    pub open spec fn wf(self) -> bool
        decreases self,
    {
        &&& names_sorted(self.children@)
        &&& all_wf(self.children@)
    }
}

/// Every node of `s` is well formed.
pub open spec fn all_wf(s: Seq<ArchiveNode>) -> bool
    decreases s,
{
    if s.len() == 0 {
        true
    } else {
        all_wf(s.subrange(0, s.len() - 1)) && s[s.len() - 1].wf()
    }
}

/// The children of a node, by name.
pub open spec fn children_map(s: Seq<ArchiveNode>) -> Map<Seq<char>, NodeView>
    decreases s,
{
    if s.len() == 0 {
        Map::empty()
    } else {
        children_map(s.subrange(0, s.len() - 1)).insert(
            s[s.len() - 1].name@,
            s[s.len() - 1].view_node(),
        )
    }
}

/// The names of `s` strictly increase.
pub open spec fn names_sorted(s: Seq<ArchiveNode>) -> bool {
    forall|i: int, j: int| 0 <= i < j < s.len() ==> lex_lt(#[trigger] s[i].name@, #[trigger] s[j].name@)
}

/// The root that every archive tree starts from.
pub open spec fn root_view() -> NodeView {
    NodeView {
        name: seq!['r', 'o', 'o', 't'],
        is_dir: true,
        last_modified: None,
        size: 0,
        compressed_size: 0,
        children: Map::empty(),
    }
}

/// The node that a component of entry `e` creates when it is missing:
/// only the last component of a file entry is a file, and only a file
/// carries the entry's time and sizes.
pub open spec fn fresh_node(name: Seq<char>, e: ZipEntry, is_last: bool) -> NodeView {
    let is_file = is_last && !e.is_dir;
    NodeView {
        name: name,
        is_dir: !is_last || e.is_dir,
        last_modified: if is_file {
            date_text_opt(e.last_modified)
        } else {
            None
        },
        size: if is_file {
            e.size
        } else {
            0
        },
        compressed_size: if is_file {
            e.compressed_size
        } else {
            0
        },
        children: Map::empty(),
    }
}

/// Walks down `n` along `comps`, creating each missing node; nodes that
/// are already there are kept as they are.
pub open spec fn insert_path(n: NodeView, comps: Seq<Seq<char>>, e: ZipEntry) -> NodeView
    decreases comps.len(),
{
    if comps.len() == 0 {
        n
    } else {
        let c = comps[0];
        let child = if n.children.contains_key(c) {
            n.children[c]
        } else {
            fresh_node(c, e, comps.len() == 1)
        };
        NodeView { children: n.children.insert(c, insert_path(child, comps.drop_first(), e)), ..n }
    }
}

/// The names along which entry `e` is placed: the `Normal` components of
/// its name without trailing `/`.
pub open spec fn entry_path(e: ZipEntry) -> Seq<Seq<char>> {
    normal_names(path_components(trim_end(e.name@, '/')))
}

/// The tree of a sequence of entries, placed one after the other.
pub open spec fn build_tree(entries: Seq<ZipEntry>) -> NodeView
    decreases entries.len(),
{
    if entries.len() == 0 {
        root_view()
    } else {
        insert_path(build_tree(entries.drop_last()), entry_path(entries.last()), entries.last())
    }
}

/// Each node of a well-formed sequence is well formed.
pub proof fn lemma_all_wf_elim(s: Seq<ArchiveNode>)
    requires
        all_wf(s),
    ensures
        forall|i: int| 0 <= i < s.len() ==> #[trigger] s[i].wf(),
    decreases s.len(),
{
    if s.len() > 0 {
        let t = s.subrange(0, s.len() - 1);
        lemma_all_wf_elim(t);
        assert forall|i: int| 0 <= i < s.len() implies #[trigger] s[i].wf() by {
            if i < s.len() - 1 {
                assert(t[i] == s[i]);
                assert(t[i].wf());
            }
        }
    }
}

/// A sequence of well-formed nodes is well formed.
pub proof fn lemma_all_wf(s: Seq<ArchiveNode>)
    requires
        forall|i: int| 0 <= i < s.len() ==> #[trigger] s[i].wf(),
    ensures
        all_wf(s),
    decreases s.len(),
{
    if s.len() > 0 {
        let t = s.subrange(0, s.len() - 1);
        assert forall|i: int| 0 <= i < t.len() implies #[trigger] t[i].wf() by {
            assert(t[i] == s[i]);
            assert(s[i].wf());
        }
        lemma_all_wf(t);
        assert(s[s.len() - 1].wf());
    }
}

/// A child of a well-formed node is well formed.
pub proof fn lemma_wf_child(n: ArchiveNode, i: int)
    requires
        n.wf(),
        0 <= i < n.children@.len(),
    ensures
        n.children@[i].wf(),
{
    lemma_all_wf_elim(n.children@);
}

// ---------------------------------------------------------------------
// Children as a map
// ---------------------------------------------------------------------

pub proof fn lemma_sorted_unique(s: Seq<ArchiveNode>, i: int, j: int)
    requires
        names_sorted(s),
        0 <= i < s.len(),
        0 <= j < s.len(),
        i != j,
    ensures
        s[i].name@ != s[j].name@,
{
    if i < j {
        assert(lex_lt(s[i].name@, s[j].name@));
    } else {
        assert(lex_lt(s[j].name@, s[i].name@));
    }
    lemma_lex_irreflexive(s[i].name@);
}

pub proof fn lemma_children_map(s: Seq<ArchiveNode>)
    requires
        names_sorted(s),
    ensures
        forall|i: int|
            0 <= i < s.len() ==> #[trigger] children_map(s).contains_key(s[i].name@) && children_map(
                s,
            )[s[i].name@] == s[i].view_node(),
        forall|k: Seq<char>|
            #[trigger] children_map(s).contains_key(k) ==> exists|i: int|
                0 <= i < s.len() && s[i].name@ == k,
    decreases s.len(),
{
    if s.len() > 0 {
        let t = s.subrange(0, s.len() - 1);
        assert forall|i: int, j: int| 0 <= i < j < t.len() implies lex_lt(
            #[trigger] t[i].name@,
            #[trigger] t[j].name@,
        ) by {
            assert(t[i] == s[i] && t[j] == s[j]);
        }
        lemma_children_map(t);
        let last = s[s.len() - 1];
        assert forall|i: int| 0 <= i < s.len() implies #[trigger] children_map(s).contains_key(
            s[i].name@,
        ) && children_map(s)[s[i].name@] == s[i].view_node() by {
            if i < s.len() - 1 {
                assert(t[i] == s[i]);
                lemma_sorted_unique(s, i, s.len() - 1);
            }
        }
        assert forall|k: Seq<char>| #[trigger] children_map(s).contains_key(k) implies exists|i: int|
            0 <= i < s.len() && s[i].name@ == k by {
            if k != last.name@ {
                assert(children_map(t).contains_key(k));
                let i = choose|i: int| 0 <= i < t.len() && t[i].name@ == k;
                assert(s[i] == t[i]);
            } else {
                assert(s[s.len() - 1].name@ == k);
            }
        }
    }
}

proof fn lemma_children_map_not_contains(s: Seq<ArchiveNode>, k: Seq<char>)
    requires
        forall|i: int| 0 <= i < s.len() ==> #[trigger] s[i].name@ != k,
    ensures
        !children_map(s).contains_key(k),
    decreases s.len(),
{
    if s.len() > 0 {
        let t = s.subrange(0, s.len() - 1);
        assert forall|i: int| 0 <= i < t.len() implies #[trigger] t[i].name@ != k by {
            assert(t[i] == s[i]);
        }
        lemma_children_map_not_contains(t, k);
    }
}

/// Replacing the child at `pos` by one of the same name replaces its entry
/// in the map.
proof fn lemma_children_map_update(s: Seq<ArchiveNode>, pos: int, c: ArchiveNode)
    requires
        names_sorted(s),
        0 <= pos < s.len(),
        c.name@ == s[pos].name@,
    ensures
        names_sorted(s.update(pos, c)),
        children_map(s.update(pos, c)) == children_map(s).insert(c.name@, c.view_node()),
{
    let t = s.update(pos, c);
    assert forall|i: int, j: int| 0 <= i < j < t.len() implies lex_lt(
        #[trigger] t[i].name@,
        #[trigger] t[j].name@,
    ) by {
        assert(t[i].name@ == s[i].name@ && t[j].name@ == s[j].name@);
    }
    lemma_children_map(s);
    lemma_children_map(t);
    let m1 = children_map(t);
    let m2 = children_map(s).insert(c.name@, c.view_node());
    assert forall|k: Seq<char>| m1.contains_key(k) <==> m2.contains_key(k) by {
        if m1.contains_key(k) {
            let i = choose|i: int| 0 <= i < t.len() && t[i].name@ == k;
            assert(s[i].name@ == k);
            assert(children_map(s).contains_key(s[i].name@));
        }
        if m2.contains_key(k) && k != c.name@ {
            let i = choose|i: int| 0 <= i < s.len() && s[i].name@ == k;
            assert(t[i].name@ == k);
            assert(m1.contains_key(t[i].name@));
        }
        if k == c.name@ {
            assert(t[pos] == c);
            assert(m1.contains_key(t[pos].name@));
        }
    }
    assert forall|k: Seq<char>| m1.contains_key(k) implies m1[k] == m2[k] by {
        let i = choose|i: int| 0 <= i < t.len() && t[i].name@ == k;
        if i == pos {
            assert(t[pos] == c);
        } else {
            lemma_sorted_unique(s, i, pos);
            assert(t[i] == s[i]);
        }
    }
    assert(m1 =~= m2);
}

/// Inserting a child of a new name at its place keeps the names sorted and
/// adds its entry to the map.
proof fn lemma_children_map_insert(s: Seq<ArchiveNode>, pos: int, c: ArchiveNode)
    requires
        names_sorted(s),
        0 <= pos <= s.len(),
        forall|j: int| 0 <= j < pos ==> lex_lt(#[trigger] s[j].name@, c.name@),
        pos < s.len() ==> lex_lt(c.name@, s[pos].name@),
    ensures
        names_sorted(s.insert(pos, c)),
        children_map(s.insert(pos, c)) == children_map(s).insert(c.name@, c.view_node()),
        !children_map(s).contains_key(c.name@),
{
    let t = s.insert(pos, c);
    assert forall|j: int| 0 <= j < s.len() implies #[trigger] s[j].name@ != c.name@ by {
        if j < pos {
            lemma_lex_irreflexive(c.name@);
        } else {
            if j > pos {
                lemma_lex_transitive(c.name@, s[pos].name@, s[j].name@);
            }
            lemma_lex_irreflexive(c.name@);
        }
    }
    lemma_children_map_not_contains(s, c.name@);
    assert forall|i: int, j: int| 0 <= i < j < t.len() implies lex_lt(
        #[trigger] t[i].name@,
        #[trigger] t[j].name@,
    ) by {
        if j < pos {
            assert(t[i] == s[i] && t[j] == s[j]);
        } else if j == pos {
            assert(t[i] == s[i] && t[j] == c);
        } else if i == pos {
            assert(t[i] == c && t[j] == s[j - 1]);
            if j - 1 > pos {
                lemma_lex_transitive(c.name@, s[pos].name@, s[j - 1].name@);
            }
        } else if i < pos {
            assert(t[i] == s[i] && t[j] == s[j - 1]);
            lemma_lex_transitive(s[i].name@, c.name@, s[pos].name@);
            if j - 1 > pos {
                lemma_lex_transitive(s[i].name@, s[pos].name@, s[j - 1].name@);
            }
        } else {
            assert(t[i] == s[i - 1] && t[j] == s[j - 1]);
        }
    }
    lemma_children_map(s);
    lemma_children_map(t);
    let m1 = children_map(t);
    let m2 = children_map(s).insert(c.name@, c.view_node());
    assert forall|k: Seq<char>| m1.contains_key(k) <==> m2.contains_key(k) by {
        if m1.contains_key(k) && k != c.name@ {
            let i = choose|i: int| 0 <= i < t.len() && t[i].name@ == k;
            if i < pos {
                assert(t[i] == s[i]);
                assert(children_map(s).contains_key(s[i].name@));
            } else if i > pos {
                assert(t[i] == s[i - 1]);
                assert(children_map(s).contains_key(s[i - 1].name@));
            }
        }
        if m2.contains_key(k) && k != c.name@ {
            let i = choose|i: int| 0 <= i < s.len() && s[i].name@ == k;
            if i < pos {
                assert(t[i] == s[i]);
                assert(m1.contains_key(t[i].name@));
            } else {
                assert(t[i + 1] == s[i]);
                assert(m1.contains_key(t[i + 1].name@));
            }
        }
        if k == c.name@ {
            assert(t[pos] == c);
            assert(m1.contains_key(t[pos].name@));
        }
    }
    assert forall|k: Seq<char>| m1.contains_key(k) implies m1[k] == m2[k] by {
        let i = choose|i: int| 0 <= i < t.len() && t[i].name@ == k;
        if i == pos {
            assert(t[pos] == c);
        } else if i < pos {
            assert(t[i] == s[i]);
            assert(children_map(s)[s[i].name@] == s[i].view_node());
        } else {
            assert(t[i] == s[i - 1]);
            assert(children_map(s)[s[i - 1].name@] == s[i - 1].view_node());
        }
    }
    assert(m1 =~= m2);
}

// ---------------------------------------------------------------------
// What the tree holds
// ---------------------------------------------------------------------

/// The node reached from `n` along the names `p`, if every step exists.
pub open spec fn node_at(n: NodeView, p: Seq<Seq<char>>) -> Option<NodeView>
    decreases p.len(),
{
    if p.len() == 0 {
        Some(n)
    } else if n.children.contains_key(p[0]) {
        node_at(n.children[p[0]], p.drop_first())
    } else {
        None
    }
}

/// `p` is a prefix of `c`.
pub open spec fn is_path_prefix(p: Seq<Seq<char>>, c: Seq<Seq<char>>) -> bool {
    p.len() <= c.len() && c.take(p.len() as int) == p
}

/// Two nodes carry the same data (their children aside).
pub open spec fn same_data(a: NodeView, b: NodeView) -> bool {
    &&& a.name == b.name
    &&& a.is_dir == b.is_dir
    &&& a.last_modified == b.last_modified
    &&& a.size == b.size
    &&& a.compressed_size == b.compressed_size
}

/// The first entry whose path passes through `p`, or -1.
pub open spec fn first_holder(entries: Seq<ZipEntry>, p: Seq<Seq<char>>) -> int
    decreases entries.len(),
{
    if entries.len() == 0 {
        -1
    } else {
        let f = first_holder(entries.drop_last(), p);
        if f >= 0 {
            f
        } else if is_path_prefix(p, entry_path(entries.last())) {
            entries.len() - 1
        } else {
            -1
        }
    }
}

proof fn lemma_insert_path_nodes(n: NodeView, c: Seq<Seq<char>>, e: ZipEntry, p: Seq<Seq<char>>)
    ensures
        same_data(insert_path(n, c, e), n),
        (node_at(insert_path(n, c, e), p) is Some) == (node_at(n, p) is Some || is_path_prefix(
            p,
            c,
        )),
        node_at(n, p) is Some ==> same_data(
            node_at(insert_path(n, c, e), p).unwrap(),
            node_at(n, p).unwrap(),
        ),
        node_at(n, p) is None && is_path_prefix(p, c) ==> p.len() > 0 && same_data(
            node_at(insert_path(n, c, e), p).unwrap(),
            fresh_node(p.last(), e, p.len() == c.len()),
        ),
    decreases p.len(),
{
    let t = insert_path(n, c, e);
    if p.len() == 0 {
        assert(c.take(0) =~= p);
    } else if c.len() == 0 {
        assert(t == n);
        assert(!is_path_prefix(p, c));
    } else if c[0] == p[0] {
        let c1 = c.drop_first();
        let p1 = p.drop_first();
        if p1.len() == 0 {
            assert(c1.take(0) =~= p1);
        }
        assert(is_path_prefix(p, c) == is_path_prefix(p1, c1)) by {
            if is_path_prefix(p, c) {
                assert(c1.take(p1.len() as int) =~= c.take(p.len() as int).drop_first());
            }
            if is_path_prefix(p1, c1) {
                assert(c.take(p.len() as int) =~= seq![c[0]] + c1.take(p1.len() as int));
                assert(p =~= seq![p[0]] + p1);
            }
        }
        let child = if n.children.contains_key(c[0]) {
            n.children[c[0]]
        } else {
            fresh_node(c[0], e, c.len() == 1)
        };
        assert(t.children[p[0]] == insert_path(child, c1, e));
        lemma_insert_path_nodes(child, c1, e, p1);
        assert(node_at(t, p) == node_at(insert_path(child, c1, e), p1));
        if n.children.contains_key(c[0]) {
            assert(node_at(n, p) == node_at(child, p1));
        } else {
            assert(node_at(n, p) is None);
        }
        if !n.children.contains_key(c[0]) {
            assert(child.children =~= Map::<Seq<char>, NodeView>::empty());
            if p1.len() > 0 {
                assert(node_at(child, p1) is None);
                assert(p1.last() == p.last());
            }
        }
    } else {
        assert(t.children.contains_key(p[0]) == n.children.contains_key(p[0]));
        if n.children.contains_key(p[0]) {
            assert(t.children[p[0]] == n.children[p[0]]);
        }
        assert(!is_path_prefix(p, c)) by {
            if p.len() <= c.len() {
                assert(c.take(p.len() as int)[0] == c[0]);
            }
        }
        if p.len() <= c.len() {
            assert(c.take(p.len() as int)[0] == c[0]);
        }
    }
}

/// The first holder of `p` is an entry whose path passes through `p`, and
/// no earlier entry's does.
pub proof fn lemma_first_holder(entries: Seq<ZipEntry>, p: Seq<Seq<char>>)
    ensures
        -1 <= first_holder(entries, p) < entries.len(),
        first_holder(entries, p) >= 0 ==> is_path_prefix(
            p,
            entry_path(entries[first_holder(entries, p)]),
        ),
        forall|j: int|
            0 <= j < entries.len() && (first_holder(entries, p) < 0 || j < first_holder(entries, p))
                ==> !is_path_prefix(p, #[trigger] entry_path(entries[j])),
    decreases entries.len(),
{
    if entries.len() > 0 {
        let prev = entries.drop_last();
        lemma_first_holder(prev, p);
        assert forall|j: int|
            0 <= j < entries.len() && (first_holder(entries, p) < 0 || j < first_holder(entries, p))
                implies !is_path_prefix(p, #[trigger] entry_path(entries[j])) by {
            if j < entries.len() - 1 {
                assert(prev[j] == entries[j]);
            }
        }
        if first_holder(prev, p) >= 0 {
            assert(prev[first_holder(prev, p)] == entries[first_holder(prev, p)]);
        }
    }
}

/// The nodes of an archive tree are exactly the prefixes of the entries'
/// paths, and each carries the data of the first entry that passes
/// through it: entries placed later never change a node that exists.
pub proof fn lemma_tree_nodes(entries: Seq<ZipEntry>, p: Seq<Seq<char>>)
    ensures
        same_data(build_tree(entries), root_view()),
        p.len() > 0 ==> ((node_at(build_tree(entries), p) is Some) == (first_holder(entries, p)
            >= 0)),
        p.len() > 0 && first_holder(entries, p) >= 0 ==> same_data(
            node_at(build_tree(entries), p).unwrap(),
            fresh_node(
                p.last(),
                entries[first_holder(entries, p)],
                p.len() == entry_path(entries[first_holder(entries, p)]).len(),
            ),
        ),
    decreases entries.len(),
{
    lemma_first_holder(entries, p);
    if entries.len() == 0 {
        assert(root_view().children =~= Map::<Seq<char>, NodeView>::empty());
        if p.len() > 0 {
            assert(node_at(root_view(), p) is None);
        }
    } else {
        let prev = entries.drop_last();
        lemma_tree_nodes(prev, p);
        lemma_insert_path_nodes(build_tree(prev), entry_path(entries.last()), entries.last(), p);
        lemma_first_holder(prev, p);
        let f = first_holder(prev, p);
        if f >= 0 {
            assert(entries[f] == prev[f]);
        }
    }
}

/// No node of an archive tree but the root has an empty name, `.`, `..`
/// or a name holding `/`.
pub proof fn lemma_tree_names_plain(entries: Seq<ZipEntry>, p: Seq<Seq<char>>)
    requires
        p.len() > 0,
        node_at(build_tree(entries), p) is Some,
    ensures
        is_plain_name(node_at(build_tree(entries), p).unwrap().name),
{
    lemma_tree_nodes(entries, p);
    lemma_first_holder(entries, p);
    let f = first_holder(entries, p);
    let c = entry_path(entries[f]);
    assert(c.take(p.len() as int)[p.len() - 1] == c[p.len() - 1]);
    lemma_path_names_plain(trim_end(entries[f].name@, '/'));
    assert(is_plain_name(c[p.len() - 1]));
}

/// Every entry's path leads to a node of the tree.
pub proof fn lemma_entry_in_tree(entries: Seq<ZipEntry>, i: int)
    requires
        0 <= i < entries.len(),
    ensures
        node_at(build_tree(entries), entry_path(entries[i])) is Some,
    decreases entries.len(),
{
    let prev = entries.drop_last();
    let c = entry_path(entries.last());
    let p = entry_path(entries[i]);
    lemma_insert_path_nodes(build_tree(prev), c, entries.last(), p);
    if i < entries.len() - 1 {
        assert(prev[i] == entries[i]);
        lemma_entry_in_tree(prev, i);
    } else {
        assert(c.take(c.len() as int) =~= c);
    }
}

// ---------------------------------------------------------------------
// Building the tree
// ---------------------------------------------------------------------

/// Where a child named `name` is or belongs among `children`: the first
/// position whose name does not sort before `name`, and whether the name
/// there is `name`.
fn find_child(children: &Vec<ArchiveNode>, name: &[char]) -> (r: (usize, bool))
    requires
        names_sorted(children@),
    ensures
        r.0 <= children@.len(),
        forall|j: int| 0 <= j < r.0 ==> lex_lt(#[trigger] children@[j].name@, name@),
        r.1 ==> r.0 < children@.len() && children@[r.0 as int].name@ == name@,
        !r.1 ==> (r.0 < children@.len() ==> lex_lt(name@, children@[r.0 as int].name@)),
{
    let n: usize = children.len();
    let mut i: usize = 0;
    while i < n
        invariant
            n == children@.len(),
            i <= n,
            forall|j: int| 0 <= j < i ==> lex_lt(#[trigger] children@[j].name@, name@),
        decreases n - i,
    {
        let cs = chars_of(children[i].name.as_str());
        if !chars_lt(cs.as_slice(), name) {
            let back = chars_lt(name, cs.as_slice());
            proof {
                lemma_lex_total(cs@, name@);
            }
            return (i, !back);
        }
        i = i + 1;
    }
    (i, false)
}

/// Walks down `node` along `comps[idx..]`, creating each missing node.
fn insert_components(
    node: &mut ArchiveNode,
    comps: &Vec<String>,
    idx: usize,
    e: &ZipEntry,
    date: &Option<String>,
)
    requires
        old(node).wf(),
        idx <= comps@.len(),
        opt_string_view(*date) == date_text_opt(e.last_modified),
    ensures
        final(node).wf(),
        final(node).view_node() == insert_path(
            old(node).view_node(),
            comps.deep_view().skip(idx as int),
            *e,
        ),
    decreases comps@.len() - idx,
{
    let ghost rest = comps.deep_view().skip(idx as int);
    if idx == comps.len() {
        assert(rest.len() == 0);
        return;
    }
    let ghost before = *node;
    let name_chars = chars_of(comps[idx].as_str());
    assert(name_chars@ == rest[0]);
    assert(comps.deep_view().skip(idx + 1) =~= rest.drop_first());
    let (pos, found) = find_child(&node.children, name_chars.as_slice());
    proof {
        lemma_children_map(before.children@);
    }
    if found {
        let mut child = node.children.remove(pos);
        assert(child == before.children@[pos as int]);
        proof { lemma_wf_child(before, pos as int); }
        assert(before.view_node().children.contains_key(rest[0]));
        insert_components(&mut child, comps, idx + 1, e, date);
        proof {
            lemma_children_map_update(before.children@, pos as int, child);
        }
        node.children.insert(pos, child);
        proof {
            assert(node.children@ =~= before.children@.update(pos as int, child));
            assert(node.view_node().children == before.view_node().children.insert(
                rest[0],
                child.view_node(),
            ));
            assert forall|i: int| 0 <= i < node.children@.len() implies #[trigger] node.children@[i].wf() by {
                if i != pos {
                    assert(node.children@[i] == before.children@[i]);
                    lemma_wf_child(before, i);
                } else {
                    assert(node.children@[i] == child);
                }
            }
            lemma_all_wf(node.children@);
        }
    } else {
        let is_last: bool = idx + 1 == comps.len();
        let is_file: bool = is_last && !e.is_dir;
        let mut child = ArchiveNode {
            name: string_from_chars(name_chars.as_slice()),
            is_dir: !is_last || e.is_dir,
            last_modified: if is_file {
                clone_opt_string(date)
            } else {
                None
            },
            size: if is_file {
                e.size
            } else {
                0
            },
            compressed_size: if is_file {
                e.compressed_size
            } else {
                0
            },
            children: Vec::new(),
        };
        proof {
            assert(child.children@.len() == 0);
            assert(children_map(child.children@) == Map::<Seq<char>, NodeView>::empty());
            assert(child.view_node() == fresh_node(rest[0], *e, rest.len() == 1));
            assert(child.wf());
            assert forall|j: int| 0 <= j < before.children@.len() implies #[trigger] before.children@[j].name@
                != name_chars@ by {
                if j < pos {
                    lemma_lex_irreflexive(name_chars@);
                } else {
                    if j > pos {
                        lemma_lex_transitive(
                            name_chars@,
                            before.children@[pos as int].name@,
                            before.children@[j].name@,
                        );
                    }
                    lemma_lex_irreflexive(name_chars@);
                }
            }
            lemma_children_map_not_contains(before.children@, name_chars@);
        }
        insert_components(&mut child, comps, idx + 1, e, date);
        proof {
            lemma_children_map_insert(before.children@, pos as int, child);
        }
        node.children.insert(pos, child);
        proof {
            assert(node.view_node().children == before.view_node().children.insert(
                rest[0],
                child.view_node(),
            ));
            assert forall|i: int| 0 <= i < node.children@.len() implies #[trigger] node.children@[i].wf() by {
                if i < pos {
                    assert(node.children@[i] == before.children@[i]);
                    lemma_wf_child(before, i);
                } else if i > pos {
                    assert(node.children@[i] == before.children@[i - 1]);
                    lemma_wf_child(before, i - 1);
                } else {
                    assert(node.children@[i] == child);
                }
            }
            lemma_all_wf(node.children@);
        }
    }
}

fn clone_opt_string(s: &Option<String>) -> (r: Option<String>)
    ensures
        opt_string_view(r) == opt_string_view(*s),
{
    match s {
        Some(s) => Some(s.clone()),
        None => None,
    }
}

/// The root of every archive tree: a directory named `root`.
pub fn new_root() -> (r: ArchiveNode)
    ensures
        r.wf(),
        r.view_node() == root_view(),
{
    let r = ArchiveNode {
        name: string_from_chars(&['r', 'o', 'o', 't']),
        is_dir: true,
        last_modified: None,
        size: 0,
        compressed_size: 0,
        children: Vec::new(),
    };
    assert(r.children@.len() == 0);
    assert(r.view_node().children =~= Map::<Seq<char>, NodeView>::empty());
    r
}

/// Places entry `e` in the tree.
pub fn add_entry(root: &mut ArchiveNode, e: &ZipEntry)
    requires
        old(root).wf(),
    ensures
        final(root).wf(),
        final(root).view_node() == insert_path(old(root).view_node(), entry_path(*e), *e),
{
    let name = chars_of(e.name.as_str());
    let trimmed = trim_end_chars(name.as_slice(), '/');
    let trimmed_str = string_from_chars(trimmed.as_slice());
    let comps = normal_components(trimmed_str.as_str());
    let date = format_date_time(e.last_modified);
    assert(opt_string_view(date) == date_text_opt(e.last_modified));
    assert(comps.deep_view().skip(0) =~= comps.deep_view());
    insert_components(root, &comps, 0, e, &date);
}

/// The requested path that an entry's name is compared with: the request
/// without leading `/`.
pub open spec fn target_key(t: Seq<char>) -> Seq<char> {
    trim_start(t, '/')
}

/// Whether some entry's name, without trailing `/`, is `key`.
pub open spec fn archive_has(entries: Seq<ZipEntry>, key: Seq<char>) -> bool {
    exists|i: int| 0 <= i < entries.len() && trim_end(#[trigger] entries[i].name@, '/') == key
}

/// The requested paths; none when nothing is requested.
pub open spec fn targets_of(t: Option<Vec<String>>) -> Seq<Seq<char>> {
    match t {
        Some(ts) => ts.deep_view(),
        None => Seq::empty(),
    }
}

/// `k` is the key of one of the requested paths `ts`.
pub open spec fn is_requested(ts: Seq<Seq<char>>, k: Seq<char>) -> bool {
    exists|j: int| 0 <= j < ts.len() && target_key(ts[j]) == k
}

/// `k` is one of the keys of the record `m`.
pub open spec fn is_recorded(m: Seq<(Seq<char>, bool)>, k: Seq<char>) -> bool {
    exists|i: int| 0 <= i < m.len() && m[i].0 == k
}

/// The record of requested paths: each distinct requested key once, with
/// whether the archive holds an entry of that name.
pub open spec fn path_map_ok(entries: Seq<ZipEntry>, ts: Seq<Seq<char>>, m: Seq<(Seq<char>, bool)>) -> bool {
    &&& forall|i: int, j: int| 0 <= i < j < m.len() ==> (#[trigger] m[i]).0 != (#[trigger] m[j]).0
    &&& forall|i: int| 0 <= i < m.len() ==> (#[trigger] m[i]).1 == archive_has(entries, m[i].0)
    &&& forall|i: int| 0 <= i < m.len() ==> #[trigger] is_requested(ts, m[i].0)
    &&& forall|k: int| 0 <= k < ts.len() ==> #[trigger] is_recorded(m, target_key(ts[k]))
}

/// A requested path is recorded as found exactly when some entry's name,
/// without its trailing `/`, is that very path: an entry `docs/` does not
/// make `doc` found, nor does `docs/readme.txt` make `docs/read` found.
pub proof fn lemma_found_exactly(
    entries: Seq<ZipEntry>,
    ts: Seq<Seq<char>>,
    m: Seq<(Seq<char>, bool)>,
    i: int,
)
    requires
        path_map_ok(entries, ts, m),
        0 <= i < m.len(),
    ensures
        m[i].1 <==> exists|j: int|
            0 <= j < entries.len() && trim_end(#[trigger] entries[j].name@, '/') == m[i].0,
{
    assert(m[i].1 == archive_has(entries, m[i].0));
}

pub open spec fn path_map_view(m: Seq<(String, bool)>) -> Seq<(Seq<char>, bool)> {
    m.map_values(|p: (String, bool)| (p.0@, p.1))
}

fn find_key(keys: &Vec<Vec<char>>, key: &[char]) -> (r: Option<usize>)
    ensures
        match r {
            Some(i) => i < keys@.len() && keys@[i as int]@ == key@,
            None => forall|i: int| 0 <= i < keys@.len() ==> (#[trigger] keys@[i])@ != key@,
        },
{
    let n: usize = keys.len();
    let mut i: usize = 0;
    while i < n
        invariant
            n == keys@.len(),
            i <= n,
            forall|j: int| 0 <= j < i ==> (#[trigger] keys@[j])@ != key@,
        decreases n - i,
    {
        if chars_eq(keys[i].as_slice(), key) {
            return Some(i);
        }
        i = i + 1;
    }
    None
}

pub open spec fn keys_view(keys: Seq<Vec<char>>) -> Seq<Seq<char>> {
    keys.map_values(|k: Vec<char>| k@)
}

/// `k` is one of `keys`.
pub open spec fn is_key(keys: Seq<Seq<char>>, k: Seq<char>) -> bool {
    exists|a: int| 0 <= a < keys.len() && keys[a] == k
}

/// The keys of the requested paths `ts`, each once, in the order in which
/// they are first requested.
pub open spec fn distinct_keys(ts: Seq<Seq<char>>) -> Seq<Seq<char>>
    decreases ts.len(),
{
    if ts.len() == 0 {
        Seq::empty()
    } else {
        let d = distinct_keys(ts.drop_last());
        let k = target_key(ts.last());
        if d.contains(k) {
            d
        } else {
            d.push(k)
        }
    }
}

/// The distinct keys of the requested paths, each once.
fn requested_keys(ts: &Vec<String>) -> (keys: Vec<Vec<char>>)
    ensures
        forall|a: int, b: int|
            0 <= a < b < keys@.len() ==> (#[trigger] keys@[a])@ != (#[trigger] keys@[b])@,
        forall|a: int| 0 <= a < keys@.len() ==> #[trigger] is_requested(ts.deep_view(), keys@[a]@),
        forall|j: int|
            0 <= j < ts@.len() ==> #[trigger] is_key(keys_view(keys@), target_key(ts.deep_view()[j])),
        keys_view(keys@) == distinct_keys(ts.deep_view()),
{
    let ghost tv = ts.deep_view();
    let mut keys: Vec<Vec<char>> = Vec::new();
    let m: usize = ts.len();
    let mut k: usize = 0;
    while k < m
        invariant
            m == ts@.len(),
            tv == ts.deep_view(),
            k <= m,
            forall|a: int, b: int|
                0 <= a < b < keys@.len() ==> (#[trigger] keys@[a])@ != (#[trigger] keys@[b])@,
            forall|a: int| 0 <= a < keys@.len() ==> #[trigger] is_requested(tv, keys@[a]@),
            forall|j: int| 0 <= j < k ==> #[trigger] is_key(keys_view(keys@), target_key(tv[j])),
            keys_view(keys@) == distinct_keys(tv.take(k as int)),
        decreases m - k,
    {
        proof {
            assert(tv.take(k + 1).drop_last() =~= tv.take(k as int));
            assert(tv.take(k + 1).last() == tv[k as int]);
        }
        let t = chars_of(ts[k].as_str());
        let key = trim_start_chars(t.as_slice(), '/');
        assert(tv[k as int] == ts@[k as int]@);
        let ghost old_keys = keys@;
        match find_key(&keys, key.as_slice()) {
            Some(a) => {
                assert(keys_view(keys@)[a as int] == key@);
                assert(keys_view(keys@).contains(key@));
            },
            None => {
                assert(!keys_view(keys@).contains(key@)) by {
                    if keys_view(keys@).contains(key@) {
                        let x = choose|x: int| 0 <= x < keys_view(keys@).len() && keys_view(keys@)[x] == key@;
                        assert(keys@[x]@ == key@);
                    }
                }
                keys.push(key);
                assert(keys_view(keys@) =~= keys_view(old_keys).push(key@));
                let ghost last = keys@.len() - 1;
                assert forall|x: int, y: int| 0 <= x < y < keys@.len() implies (
                #[trigger] keys@[x])@ != (#[trigger] keys@[y])@ by {
                    if y == last {
                        assert(old_keys[x] == keys@[x]);
                    } else {
                        assert(old_keys[x] == keys@[x] && old_keys[y] == keys@[y]);
                    }
                }
                assert forall|x: int| 0 <= x < keys@.len() implies #[trigger] is_requested(
                    tv,
                    keys@[x]@,
                ) by {
                    if x < last {
                        assert(old_keys[x] == keys@[x]);
                        assert(is_requested(tv, old_keys[x]@));
                    } else {
                        assert(target_key(tv[k as int]) == keys@[x]@);
                    }
                }
                assert(keys_view(keys@)[last] == key@);
            },
        }
        assert forall|j: int| 0 <= j < k + 1 implies #[trigger] is_key(
            keys_view(keys@),
            target_key(tv[j]),
        ) by {
            if j < k {
                assert(is_key(keys_view(old_keys), target_key(tv[j])));
                let x = choose|x: int|
                    0 <= x < old_keys.len() && keys_view(old_keys)[x] == target_key(tv[j]);
                assert(keys@[x] == old_keys[x]);
                assert(keys_view(keys@)[x] == target_key(tv[j]));
            }
        }
        k = k + 1;
    }
    assert(tv.take(m as int) =~= tv);
    keys
}

/// Whether some entry's name, without trailing `/`, is `key`.
fn archive_holds(entries: &Vec<ZipEntry>, key: &[char]) -> (hit: bool)
    ensures
        hit == archive_has(entries@, key@),
{
    let n: usize = entries.len();
    let mut j: usize = 0;
    while j < n
        invariant
            n == entries@.len(),
            j <= n,
            forall|x: int| 0 <= x < j ==> trim_end(#[trigger] entries@[x].name@, '/') != key@,
        decreases n - j,
    {
        let name = chars_of(entries[j].name.as_str());
        let trimmed = trim_end_chars(name.as_slice(), '/');
        if chars_eq(trimmed.as_slice(), key) {
            return true;
        }
        j = j + 1;
    }
    false
}

/// The tree of an archive's entries.
pub fn build_archive_tree(entries: &Vec<ZipEntry>) -> (root: ArchiveNode)
    ensures
        root.wf(),
        root.view_node() == build_tree(entries@),
{
    let mut root = new_root();
    let n: usize = entries.len();
    let mut i: usize = 0;
    while i < n
        invariant
            n == entries@.len(),
            i <= n,
            root.wf(),
            root.view_node() == build_tree(entries@.take(i as int)),
        decreases n - i,
    {
        assert(entries@.take(i + 1).drop_last() =~= entries@.take(i as int));
        add_entry(&mut root, &entries[i]);
        i = i + 1;
    }
    assert(entries@.take(n as int) =~= entries@);
    root
}

/// The tree of an archive's entries, and for each requested path whether
/// the archive holds it.
///
/// Entries are placed in order along the `Normal` components of their
/// names; a node that exists already is kept as it is. Each requested path
/// is looked up without its leading `/`, against entry names without
/// their trailing `/`; the record holds each such key once, in the order
/// of its first request.
pub fn get_zip_structure(entries: &Vec<ZipEntry>, target_path: Option<Vec<String>>) -> (r: (
    ArchiveNode,
    Vec<(String, bool)>,
))
    ensures
        r.0.wf(),
        r.0.view_node() == build_tree(entries@),
        path_map_ok(entries@, targets_of(target_path), path_map_view(r.1@)),
        path_map_view(r.1@).map_values(|p: (Seq<char>, bool)| p.0) == distinct_keys(
            targets_of(target_path),
        ),
        forall|i: int|
            0 <= i < r.1@.len() ==> ((#[trigger] r.1@[i]).1 <==> exists|j: int|
                0 <= j < entries@.len() && trim_end(entries@[j].name@, '/') == r.1@[i].0@),
{
    let root = build_archive_tree(entries);
    let ts: Vec<String> = match target_path {
        Some(ts) => ts,
        None => Vec::new(),
    };
    assert(ts.deep_view() =~= targets_of(target_path));
    let keys = requested_keys(&ts);
    let nk: usize = keys.len();
    let mut path_map: Vec<(String, bool)> = Vec::new();
    let mut b: usize = 0;
    while b < nk
        invariant
            nk == keys@.len(),
            b <= nk,
            path_map@.len() == b,
            forall|x: int|
                0 <= x < b ==> (#[trigger] path_map@[x]).0@ == keys@[x]@ && path_map@[x].1
                    == archive_has(entries@, keys@[x]@),
        decreases nk - b,
    {
        let hit = archive_holds(entries, keys[b].as_slice());
        path_map.push((string_from_chars(keys[b].as_slice()), hit));
        b = b + 1;
    }
    proof {
        let mv = path_map_view(path_map@);
        let tv = targets_of(target_path);
        assert(mv.map_values(|p: (Seq<char>, bool)| p.0) =~= keys_view(keys@));
        assert forall|x: int| 0 <= x < mv.len() implies #[trigger] mv[x] == (
        keys@[x]@,
        path_map@[x].1,
        ) by {}
        assert forall|x: int, y: int| 0 <= x < y < mv.len() implies (#[trigger] mv[x]).0 != (
        #[trigger] mv[y]).0 by {}
        assert forall|x: int| 0 <= x < mv.len() implies #[trigger] is_requested(tv, mv[x].0) by {
            assert(is_requested(tv, keys@[x]@));
        }
        assert forall|k: int| 0 <= k < tv.len() implies #[trigger] is_recorded(
            mv,
            target_key(tv[k]),
        ) by {
            assert(is_key(keys_view(keys@), target_key(tv[k])));
            let x = choose|x: int|
                0 <= x < keys@.len() && keys_view(keys@)[x] == target_key(tv[k]);
            assert(mv[x].0 == keys@[x]@);
        }
    }
    proof {
        let mv = path_map_view(path_map@);
        let tv = targets_of(target_path);
        assert(path_map_ok(entries@, tv, mv));
        assert forall|i: int| 0 <= i < path_map@.len() implies ((#[trigger] path_map@[i]).1 <==> exists|j: int|
            0 <= j < entries@.len() && trim_end(entries@[j].name@, '/') == path_map@[i].0@) by {
            assert(mv[i] == (path_map@[i].0@, path_map@[i].1));
            lemma_found_exactly(entries@, tv, mv, i);
        }
    }
    (root, path_map)
}

/// The absolute form of `file`: itself when absolute, else joined to the
/// current directory; none when it is relative and the current directory
/// is unknown.
pub fn get_abs_path(file: &str, current_dir: Option<String>) -> (r: Option<String>)
    ensures
        match r {
            Some(p) => if is_absolute_path(file@) {
                p@ == file@
            } else {
                current_dir matches Some(d) && p@ == joined(d@, file@)
            },
            None => !is_absolute_path(file@) && current_dir is None,
        },
{
    if is_absolute(file) {
        return Some(crate::text::string_of(file));
    }
    match current_dir {
        Some(current_dir) => Some(join(current_dir.as_str(), file)),
        None => None,
    }
}
} // verus!
