//! The archive tree of the desktop application: like the command line's,
//! but every directory also adds up the sizes of the entries below it,
//! and files carry their extension.
use vstd::prelude::*;

use crate::archive::{ZipEntry, entry_path, is_path_prefix, opt_string_view};
use crate::date::{date_text_opt, format_date_time};
use crate::path::{ComponentView, components, extension, extension_of, lemma_plain_name_components, normal_components, path_components};
use crate::text::{chars_eq, chars_of, contains_char, has_char, string_from_chars, trim_end, trim_end_chars};

verus! {

/// A node of the desktop application's archive tree.
pub struct ArchiveNode {
    pub name: String,
    pub is_dir: bool,
    pub last_modified: Option<String>,
    pub size: u64,
    pub compressed_size: u64,
    /// The children, no name twice.
    pub children: Vec<ArchiveNode>,
    pub ext: Option<String>,
}

/// A node of the desktop tree as plain values, its children by name.
pub struct DesktopView {
    pub name: Seq<char>,
    pub is_dir: bool,
    pub last_modified: Option<Seq<char>>,
    pub size: nat,
    pub compressed_size: nat,
    pub ext: Option<Seq<char>>,
    pub children: Map<Seq<char>, DesktopView>,
}

impl ArchiveNode {
    pub open spec fn view_node(self) -> DesktopView
        decreases self,
    {
        DesktopView {
            name: self.name@,
            is_dir: self.is_dir,
            last_modified: opt_string_view(self.last_modified),
            size: self.size as nat,
            compressed_size: self.compressed_size as nat,
            ext: opt_string_view(self.ext),
            children: desk_children(self.children@),
        }
    }

    /// No node has two children of the same name.
    pub open spec fn wf(self) -> bool
        decreases self,
    {
        &&& names_unique(self.children@)
        &&& all_wf(self.children@)
    }
}

pub open spec fn desk_children(s: Seq<ArchiveNode>) -> Map<Seq<char>, DesktopView>
    decreases s,
{
    if s.len() == 0 {
        Map::empty()
    } else {
        desk_children(s.subrange(0, s.len() - 1)).insert(
            s[s.len() - 1].name@,
            s[s.len() - 1].view_node(),
        )
    }
}

pub open spec fn all_wf(s: Seq<ArchiveNode>) -> bool
    decreases s,
{
    if s.len() == 0 {
        true
    } else {
        all_wf(s.subrange(0, s.len() - 1)) && s[s.len() - 1].wf()
    }
}

pub open spec fn names_unique(s: Seq<ArchiveNode>) -> bool {
    forall|i: int, j: int| 0 <= i < s.len() && 0 <= j < s.len() && i != j ==> (#[trigger] s[i]).name@ != (#[trigger] s[j]).name@
}

/// The node a fresh name creates: it takes the entry's kind and time, and
/// for a file its sizes and extension.
pub open spec fn fresh_node(name: Seq<char>, e: ZipEntry) -> DesktopView {
    DesktopView {
        name: name,
        is_dir: e.is_dir,
        last_modified: date_text_opt(e.last_modified),
        size: if e.is_dir {
            0
        } else {
            e.size as nat
        },
        compressed_size: if e.is_dir {
            0
        } else {
            e.compressed_size as nat
        },
        ext: if e.is_dir {
            None
        } else {
            extension_of(trim_end(e.name@, '/'))
        },
        children: Map::empty(),
    }
}

/// Walks down `n` along `comps`, creating each missing node; every node
/// walked out of adds the entry's sizes.
pub open spec fn insert_path(n: DesktopView, comps: Seq<Seq<char>>, e: ZipEntry) -> DesktopView
    decreases comps.len(),
{
    if comps.len() == 0 {
        n
    } else {
        let c = comps[0];
        let child = if n.children.contains_key(c) {
            n.children[c]
        } else {
            fresh_node(c, e)
        };
        DesktopView {
            size: n.size + e.size as nat,
            compressed_size: n.compressed_size + e.compressed_size as nat,
            children: n.children.insert(c, insert_path(child, comps.drop_first(), e)),
            ..n
        }
    }
}

/// The root of the desktop tree: a directory named `root`.
pub open spec fn root_view() -> DesktopView {
    DesktopView {
        name: seq!['r', 'o', 'o', 't'],
        is_dir: true,
        last_modified: None,
        size: 0,
        compressed_size: 0,
        ext: None,
        children: Map::empty(),
    }
}

/// The desktop tree of a sequence of entries.
pub open spec fn build_tree(entries: Seq<ZipEntry>) -> DesktopView
    decreases entries.len(),
{
    if entries.len() == 0 {
        root_view()
    } else {
        insert_path(build_tree(entries.drop_last()), entry_path(entries.last()), entries.last())
    }
}

/// The node reached from `n` along `p`.
pub open spec fn node_at(n: DesktopView, p: Seq<Seq<char>>) -> Option<DesktopView>
    decreases p.len(),
{
    if p.len() == 0 {
        Some(n)
    } else if n.children.contains_key(p[0]) {
        node_at(n.children[p[0]], p.drop_first())
    } else {
        None
    }
}

/// A node's sizes do not fit a `u64`.
pub open spec fn too_big(x: DesktopView) -> bool {
    x.size > u64::MAX || x.compressed_size > u64::MAX
}

/// Every node's sizes fit a `u64`.
pub open spec fn sizes_fit(t: DesktopView) -> bool {
    forall|p: Seq<Seq<char>>| #[trigger] node_at(t, p) matches Some(x) ==> !too_big(x)
}

/// The sum of the sizes of the entries that have a path.
pub open spec fn total_size(entries: Seq<ZipEntry>) -> nat
    decreases entries.len(),
{
    if entries.len() == 0 {
        0
    } else {
        total_size(entries.drop_last()) + if entry_path(entries.last()).len() > 0 {
            entries.last().size as nat
        } else {
            0nat
        }
    }
}

// ---------------------------------------------------------------------
// Children as a map
// ---------------------------------------------------------------------

proof fn lemma_all_wf_elim(s: Seq<ArchiveNode>)
    requires
        all_wf(s),
    ensures
        forall|i: int| 0 <= i < s.len() ==> #[trigger] s[i].wf(),
    decreases s.len(),
{
    if s.len() > 0 {
        let t = s.subrange(0, s.len() - 1);
        lemma_all_wf_elim(t);
        assert forall|i: int| 0 <= i < s.len() implies #[trigger] s[i].wf() by {
            if i < s.len() - 1 {
                assert(t[i] == s[i]);
                assert(t[i].wf());
            }
        }
    }
}

proof fn lemma_all_wf(s: Seq<ArchiveNode>)
    requires
        forall|i: int| 0 <= i < s.len() ==> #[trigger] s[i].wf(),
    ensures
        all_wf(s),
    decreases s.len(),
{
    if s.len() > 0 {
        let t = s.subrange(0, s.len() - 1);
        assert forall|i: int| 0 <= i < t.len() implies #[trigger] t[i].wf() by {
            assert(t[i] == s[i]);
            assert(s[i].wf());
        }
        lemma_all_wf(t);
        assert(s[s.len() - 1].wf());
    }
}

proof fn lemma_desk_children(s: Seq<ArchiveNode>)
    requires
        names_unique(s),
    ensures
        forall|i: int|
            0 <= i < s.len() ==> #[trigger] desk_children(s).contains_key(s[i].name@)
                && desk_children(s)[s[i].name@] == s[i].view_node(),
        forall|k: Seq<char>|
            #[trigger] desk_children(s).contains_key(k) ==> exists|i: int|
                0 <= i < s.len() && s[i].name@ == k,
    decreases s.len(),
{
    if s.len() > 0 {
        let t = s.subrange(0, s.len() - 1);
        assert forall|i: int, j: int|
            0 <= i < t.len() && 0 <= j < t.len() && i != j implies (#[trigger] t[i]).name@ != (
            #[trigger] t[j]).name@ by {
            assert(t[i] == s[i] && t[j] == s[j]);
        }
        lemma_desk_children(t);
        let last = s[s.len() - 1];
        assert forall|i: int| 0 <= i < s.len() implies #[trigger] desk_children(s).contains_key(
            s[i].name@,
        ) && desk_children(s)[s[i].name@] == s[i].view_node() by {
            if i < s.len() - 1 {
                assert(t[i] == s[i]);
                assert(s[i].name@ != s[s.len() - 1].name@);
            }
        }
        assert forall|k: Seq<char>| #[trigger] desk_children(s).contains_key(k) implies exists|i: int|
            0 <= i < s.len() && s[i].name@ == k by {
            if k != last.name@ {
                assert(desk_children(t).contains_key(k));
                let i = choose|i: int| 0 <= i < t.len() && t[i].name@ == k;
                assert(s[i] == t[i]);
            } else {
                assert(s[s.len() - 1].name@ == k);
            }
        }
    }
}

proof fn lemma_desk_children_update(s: Seq<ArchiveNode>, pos: int, c: ArchiveNode)
    requires
        names_unique(s),
        0 <= pos < s.len(),
        c.name@ == s[pos].name@,
    ensures
        names_unique(s.update(pos, c)),
        desk_children(s.update(pos, c)) == desk_children(s).insert(c.name@, c.view_node()),
{
    let t = s.update(pos, c);
    assert forall|i: int, j: int|
        0 <= i < t.len() && 0 <= j < t.len() && i != j implies (#[trigger] t[i]).name@ != (
        #[trigger] t[j]).name@ by {
        assert(t[i].name@ == s[i].name@ && t[j].name@ == s[j].name@);
    }
    lemma_desk_children(s);
    lemma_desk_children(t);
    let m1 = desk_children(t);
    let m2 = desk_children(s).insert(c.name@, c.view_node());
    assert forall|k: Seq<char>| m1.contains_key(k) <==> m2.contains_key(k) by {
        if m1.contains_key(k) {
            let i = choose|i: int| 0 <= i < t.len() && t[i].name@ == k;
            assert(s[i].name@ == k);
            assert(desk_children(s).contains_key(s[i].name@));
        }
        if m2.contains_key(k) && k != c.name@ {
            let i = choose|i: int| 0 <= i < s.len() && s[i].name@ == k;
            assert(t[i].name@ == k);
            assert(m1.contains_key(t[i].name@));
        }
        if k == c.name@ {
            assert(t[pos] == c);
            assert(m1.contains_key(t[pos].name@));
        }
    }
    assert forall|k: Seq<char>| m1.contains_key(k) implies m1[k] == m2[k] by {
        let i = choose|i: int| 0 <= i < t.len() && t[i].name@ == k;
        if i == pos {
            assert(t[pos] == c);
        } else {
            assert(t[i] == s[i]);
        }
    }
    assert(m1 =~= m2);
}

proof fn lemma_desk_children_push(s: Seq<ArchiveNode>, c: ArchiveNode)
    requires
        names_unique(s),
        forall|i: int| 0 <= i < s.len() ==> (#[trigger] s[i]).name@ != c.name@,
    ensures
        names_unique(s.push(c)),
        desk_children(s.push(c)) == desk_children(s).insert(c.name@, c.view_node()),
        !desk_children(s).contains_key(c.name@),
{
    let t = s.push(c);
    assert forall|i: int, j: int|
        0 <= i < t.len() && 0 <= j < t.len() && i != j implies (#[trigger] t[i]).name@ != (
        #[trigger] t[j]).name@ by {
        if i < s.len() && j < s.len() {
            assert(t[i] == s[i] && t[j] == s[j]);
        } else if i < s.len() {
            assert(t[i] == s[i] && t[j] == c);
        } else {
            assert(t[i] == c && t[j] == s[j]);
        }
    }
    lemma_desk_children(s);
    assert(t.subrange(0, t.len() - 1) =~= s);
    if desk_children(s).contains_key(c.name@) {
        let i = choose|i: int| 0 <= i < s.len() && s[i].name@ == c.name@;
        assert(false);
    }
}

// ---------------------------------------------------------------------
// Building the tree
// ---------------------------------------------------------------------

/// The position of the child named `name`, if any.
fn find_child(children: &Vec<ArchiveNode>, name: &[char]) -> (r: Option<usize>)
    ensures
        match r {
            Some(i) => i < children@.len() && children@[i as int].name@ == name@,
            None => forall|i: int| 0 <= i < children@.len() ==> (#[trigger] children@[i]).name@ != name@,
        },
{
    let n: usize = children.len();
    let mut i: usize = 0;
    while i < n
        invariant
            n == children@.len(),
            i <= n,
            forall|j: int| 0 <= j < i ==> (#[trigger] children@[j]).name@ != name@,
        decreases n - i,
    {
        let cs = chars_of(children[i].name.as_str());
        if crate::text::chars_eq(cs.as_slice(), name) {
            return Some(i);
        }
        i = i + 1;
    }
    None
}

proof fn lemma_node_at_cons(n: DesktopView, c: Seq<char>, q: Seq<Seq<char>>)
    requires
        n.children.contains_key(c),
    ensures
        node_at(n, seq![c] + q) == node_at(n.children[c], q),
{
    assert((seq![c] + q)[0] == c);
    assert((seq![c] + q).drop_first() =~= q);
}

fn clone_opt(s: &Option<String>) -> (r: Option<String>)
    ensures
        opt_string_view(r) == opt_string_view(*s),
{
    match s {
        Some(s) => Some(s.clone()),
        None => None,
    }
}

/// Walks down `node` along `comps[idx..]`, creating missing nodes and
/// adding the entry's sizes to each node walked out of; `false` when a
/// size would not fit a `u64`.
fn insert_components(
    node: &mut ArchiveNode,
    comps: &Vec<String>,
    idx: usize,
    e: &ZipEntry,
    date: &Option<String>,
    ext: &Option<String>,
) -> (ok: bool)
    requires
        old(node).wf(),
        idx <= comps@.len(),
        opt_string_view(*date) == date_text_opt(e.last_modified),
        opt_string_view(*ext) == extension_of(trim_end(e.name@, '/')),
    ensures
        ok ==> final(node).wf(),
        ok ==> final(node).view_node() == insert_path(
            old(node).view_node(),
            comps.deep_view().skip(idx as int),
            *e,
        ),
        !ok ==> exists|q: Seq<Seq<char>>|
            #[trigger] node_at(
                insert_path(old(node).view_node(), comps.deep_view().skip(idx as int), *e),
                q,
            ) matches Some(x) && too_big(x),
    decreases comps@.len() - idx,
{
    let ghost rest = comps.deep_view().skip(idx as int);
    let ghost before = *node;
    let ghost result = insert_path(before.view_node(), rest, *e);
    if idx == comps.len() {
        assert(rest.len() == 0);
        return true;
    }
    assert(node_at(result, Seq::empty()) == Some(result));
    let new_size = match node.size.checked_add(e.size) {
        Some(v) => v,
        None => {
            assert(too_big(result));
            return false;
        },
    };
    let new_compressed = match node.compressed_size.checked_add(e.compressed_size) {
        Some(v) => v,
        None => {
            assert(too_big(result));
            return false;
        },
    };
    let name_chars = chars_of(comps[idx].as_str());
    assert(name_chars@ == rest[0]);
    assert(comps.deep_view().skip(idx + 1) =~= rest.drop_first());
    proof {
        lemma_desk_children(before.children@);
        lemma_all_wf_elim(before.children@);
    }
    match find_child(&node.children, name_chars.as_slice()) {
        Some(pos) => {
            let mut child = node.children.remove(pos);
            assert(child == before.children@[pos as int]);
            assert(before.view_node().children.contains_key(rest[0]));
            let ok = insert_components(&mut child, comps, idx + 1, e, date, ext);
            if !ok {
                proof {
                    assert(result.children[rest[0]] == insert_path(
                        child_before(before, pos as int).view_node(),
                        rest.drop_first(),
                        *e,
                    ));
                    let q = choose|q: Seq<Seq<char>>|
                        #[trigger] node_at(
                            insert_path(
                                child_before(before, pos as int).view_node(),
                                rest.drop_first(),
                                *e,
                            ),
                            q,
                        ) matches Some(x) && too_big(x);
                    lemma_node_at_cons(result, rest[0], q);
                }
                return false;
            }
            proof {
                lemma_desk_children_update(before.children@, pos as int, child);
            }
            node.children.insert(pos, child);
            proof {
                assert(node.children@ =~= before.children@.update(pos as int, child));
                assert forall|i: int| 0 <= i < node.children@.len() implies #[trigger] node.children@[i].wf() by {
                    if i != pos {
                        assert(node.children@[i] == before.children@[i]);
                    }
                }
                lemma_all_wf(node.children@);
            }
        },
        None => {
            let is_dir: bool = e.is_dir;
            let mut child = ArchiveNode {
                name: string_from_chars(name_chars.as_slice()),
                is_dir,
                last_modified: clone_opt(date),
                size: if is_dir {
                    0
                } else {
                    e.size
                },
                compressed_size: if is_dir {
                    0
                } else {
                    e.compressed_size
                },
                children: Vec::new(),
                ext: if is_dir {
                    None
                } else {
                    clone_opt(ext)
                },
            };
            proof {
                assert(desk_children(child.children@) =~= Map::<Seq<char>, DesktopView>::empty());
                assert(child.view_node() == fresh_node(rest[0], *e));
                assert(child.wf());
                lemma_desk_children_push(before.children@, child);
            }
            let ghost fresh = child;
            let ok = insert_components(&mut child, comps, idx + 1, e, date, ext);
            if !ok {
                proof {
                    assert(!before.view_node().children.contains_key(rest[0]));
                    assert(result.children[rest[0]] == insert_path(
                        fresh.view_node(),
                        rest.drop_first(),
                        *e,
                    ));
                    let q = choose|q: Seq<Seq<char>>|
                        #[trigger] node_at(
                            insert_path(fresh.view_node(), rest.drop_first(), *e),
                            q,
                        ) matches Some(x) && too_big(x);
                    lemma_node_at_cons(result, rest[0], q);
                }
                return false;
            }
            proof {
                lemma_desk_children_push(before.children@, child);
            }
            node.children.push(child);
            proof {
                assert forall|i: int| 0 <= i < node.children@.len() implies #[trigger] node.children@[i].wf() by {
                    if i < before.children@.len() {
                        assert(node.children@[i] == before.children@[i]);
                    } else {
                        assert(node.children@[i] == child);
                    }
                }
                lemma_all_wf(node.children@);
            }
        },
    }
    node.size = new_size;
    node.compressed_size = new_compressed;
    true
}

spec fn child_before(n: ArchiveNode, pos: int) -> ArchiveNode {
    n.children@[pos]
}

impl Default for ArchiveNode {
    /// An empty directory without a name.
    fn default() -> (r: Self)
        ensures
            r.name@ == Seq::<char>::empty(),
            r.is_dir,
            r.last_modified is None,
            r.size == 0,
            r.compressed_size == 0,
            r.children@.len() == 0,
            r.ext is None,
    {
        ArchiveNode {
            name: String::new(),
            is_dir: true,
            last_modified: None,
            size: 0,
            compressed_size: 0,
            children: Vec::new(),
            ext: None,
        }
    }
}

impl ArchiveNode {
    /// An empty directory named `name`.
    pub fn from_name(name: &str) -> (r: Self)
        ensures
            r.name@ == name@,
            r.is_dir,
            r.last_modified is None,
            r.size == 0,
            r.compressed_size == 0,
            r.children@.len() == 0,
            r.ext is None,
    {
        let mut ret = Self::default();
        ret.name = crate::text::string_of(name);
        ret
    }
}

/// The root of a desktop tree.
fn new_root() -> (r: ArchiveNode)
    ensures
        r.wf(),
        r.view_node() == root_view(),
{
    let mut r = ArchiveNode::default();
    r.name = string_from_chars(&['r', 'o', 'o', 't']);
    assert(desk_children(r.children@) =~= Map::<Seq<char>, DesktopView>::empty());
    assert(r.wf());
    r
}

/// The extension of the file at `path`.
pub fn get_file_ext(path: &str) -> (r: Option<String>)
    ensures
        match r {
            Some(s) => extension_of(path@) == Some(s@),
            None => extension_of(path@) is None,
        },
{
    extension(path)
}

/// Places entry `e` in the tree; `false` when a size would not fit.
fn add_entry(root: &mut ArchiveNode, e: &ZipEntry) -> (ok: bool)
    requires
        old(root).wf(),
    ensures
        ok ==> final(root).wf(),
        ok ==> final(root).view_node() == insert_path(old(root).view_node(), entry_path(*e), *e),
        !ok ==> exists|q: Seq<Seq<char>>|
            #[trigger] node_at(insert_path(old(root).view_node(), entry_path(*e), *e), q) matches Some(
                x,
            ) && too_big(x),
{
    let name = chars_of(e.name.as_str());
    let trimmed = trim_end_chars(name.as_slice(), '/');
    let trimmed_str = string_from_chars(trimmed.as_slice());
    let comps = normal_components(trimmed_str.as_str());
    let date = format_date_time(e.last_modified);
    let ext = get_file_ext(trimmed_str.as_str());
    assert(opt_string_view(date) == date_text_opt(e.last_modified));
    assert(opt_string_view(ext) == extension_of(trim_end(e.name@, '/')));
    assert(comps.deep_view().skip(0) =~= comps.deep_view());
    insert_components(root, &comps, 0, e, &date, &ext)
}

/// Adding an entry never removes a node nor shrinks its sizes.
pub proof fn lemma_insert_grows(n: DesktopView, c: Seq<Seq<char>>, e: ZipEntry, q: Seq<Seq<char>>)
    requires
        node_at(n, q) is Some,
    ensures
        node_at(insert_path(n, c, e), q) is Some,
        node_at(insert_path(n, c, e), q).unwrap().size >= node_at(n, q).unwrap().size,
        node_at(insert_path(n, c, e), q).unwrap().compressed_size >= node_at(
            n,
            q,
        ).unwrap().compressed_size,
    decreases q.len(),
{
    if q.len() > 0 && c.len() > 0 {
        let t = insert_path(n, c, e);
        if c[0] == q[0] {
            lemma_insert_grows(n.children[q[0]], c.drop_first(), e, q.drop_first());
        } else {
            assert(t.children[q[0]] == n.children[q[0]]);
        }
    }
}

proof fn lemma_insert_leaf(n: DesktopView, c: Seq<Seq<char>>, e: ZipEntry)
    requires
        c.len() > 0,
        node_at(n, c) is None,
    ensures
        node_at(insert_path(n, c, e), c) == Some(fresh_node(c.last(), e)),
    decreases c.len(),
{
    let t = insert_path(n, c, e);
    let c1 = c.drop_first();
    let child = if n.children.contains_key(c[0]) {
        n.children[c[0]]
    } else {
        fresh_node(c[0], e)
    };
    assert(t.children[c[0]] == insert_path(child, c1, e));
    assert(node_at(t, c) == node_at(insert_path(child, c1, e), c1));
    if c1.len() == 0 {
        assert(!n.children.contains_key(c[0]));
        assert(c.last() == c[0]);
    } else {
        if !n.children.contains_key(c[0]) {
            assert(child.children =~= Map::<Seq<char>, DesktopView>::empty());
        }
        assert(node_at(child, c1) is None);
        assert(c1.last() == c.last());
        lemma_insert_leaf(child, c1, e);
    }
}

/// Adding a file entry whose path is not in the tree yet makes a file node
/// at that path that carries the entry's own size, compressed size, time
/// and extension, and has no children.
pub proof fn lemma_new_file_node(n: DesktopView, e: ZipEntry)
    requires
        !e.is_dir,
        entry_path(e).len() > 0,
        node_at(n, entry_path(e)) is None,
    ensures
        node_at(insert_path(n, entry_path(e), e), entry_path(e)) matches Some(x) && !x.is_dir
            && x.name == entry_path(e).last() && x.size == e.size && x.compressed_size
            == e.compressed_size && x.last_modified == date_text_opt(e.last_modified) && x.ext
            == extension_of(trim_end(e.name@, '/')) && x.children.dom().len() == 0,
{
    lemma_insert_leaf(n, entry_path(e), e);
    assert(Map::<Seq<char>, DesktopView>::empty().dom() =~= Set::<Seq<char>>::empty());
}

/// Placing an entry adds its size and compressed size to every node that
/// already stands above its own node on its path, the root included, and
/// leaves the sizes of every other node that already exists as they were.
pub proof fn lemma_insert_sums(n: DesktopView, c: Seq<Seq<char>>, e: ZipEntry, q: Seq<Seq<char>>)
    requires
        node_at(n, q) is Some,
    ensures
        node_at(insert_path(n, c, e), q) is Some,
        is_path_prefix(q, c) && q.len() < c.len() ==> node_at(insert_path(n, c, e), q).unwrap().size
            == node_at(n, q).unwrap().size + e.size && node_at(insert_path(n, c, e), q).unwrap().compressed_size
            == node_at(n, q).unwrap().compressed_size + e.compressed_size,
        !(is_path_prefix(q, c) && q.len() < c.len()) ==> node_at(insert_path(n, c, e), q).unwrap().size
            == node_at(n, q).unwrap().size && node_at(insert_path(n, c, e), q).unwrap().compressed_size
            == node_at(n, q).unwrap().compressed_size,
    decreases q.len(),
{
    let t = insert_path(n, c, e);
    if q.len() == 0 {
        assert(c.take(0) =~= q);
    } else if c.len() == 0 {
        assert(t == n);
    } else if c[0] == q[0] {
        let c1 = c.drop_first();
        let q1 = q.drop_first();
        assert(t.children[q[0]] == insert_path(n.children[q[0]], c1, e));
        lemma_insert_sums(n.children[q[0]], c1, e, q1);
        assert(is_path_prefix(q, c) == is_path_prefix(q1, c1)) by {
            if is_path_prefix(q, c) {
                assert(c1.take(q1.len() as int) =~= c.take(q.len() as int).drop_first());
            }
            if is_path_prefix(q1, c1) {
                assert(c.take(q.len() as int) =~= seq![c[0]] + c1.take(q1.len() as int));
                assert(q =~= seq![q[0]] + q1);
            }
        }
    } else {
        assert(t.children[q[0]] == n.children[q[0]]);
        assert(!is_path_prefix(q, c)) by {
            if q.len() <= c.len() {
                assert(c.take(q.len() as int)[0] == c[0]);
            }
        }
    }
}

proof fn lemma_build_grows(entries: Seq<ZipEntry>, k: int, q: Seq<Seq<char>>)
    requires
        0 <= k <= entries.len(),
        node_at(build_tree(entries.take(k)), q) is Some,
    ensures
        node_at(build_tree(entries), q) is Some,
        node_at(build_tree(entries), q).unwrap().size >= node_at(
            build_tree(entries.take(k)),
            q,
        ).unwrap().size,
        node_at(build_tree(entries), q).unwrap().compressed_size >= node_at(
            build_tree(entries.take(k)),
            q,
        ).unwrap().compressed_size,
    decreases entries.len() - k,
{
    if k == entries.len() {
        assert(entries.take(k) =~= entries);
    } else {
        assert(entries.take(k + 1).drop_last() =~= entries.take(k));
        lemma_insert_grows(
            build_tree(entries.take(k)),
            entry_path(entries[k]),
            entries[k],
            q,
        );
        lemma_build_grows(entries, k + 1, q);
    }
}

proof fn lemma_view_sizes(t: ArchiveNode, p: Seq<Seq<char>>)
    requires
        t.wf(),
    ensures
        node_at(t.view_node(), p) matches Some(x) ==> !too_big(x),
    decreases p.len(),
{
    if p.len() > 0 && t.view_node().children.contains_key(p[0]) {
        lemma_desk_children(t.children@);
        lemma_all_wf_elim(t.children@);
        let i = choose|i: int| 0 <= i < t.children@.len() && t.children@[i].name@ == p[0];
        lemma_view_sizes(t.children@[i], p.drop_first());
    }
}

/// The sizes of a built desktop tree fit a `u64` everywhere.
pub proof fn lemma_tree_sizes_fit(t: ArchiveNode)
    requires
        t.wf(),
    ensures
        sizes_fit(t.view_node()),
{
    assert forall|p: Seq<Seq<char>>| #[trigger] node_at(t.view_node(), p) is Some implies !too_big(
        node_at(t.view_node(), p).unwrap(),
    ) by {
        lemma_view_sizes(t, p);
    }
}

/// The desktop tree of an archive's entries; none when a directory's
/// total size would not fit a `u64`.
///
/// Entries are placed in order along the `Normal` components of their
/// names; a node that exists already keeps its data, and every node the
/// walk passes through (the root included) adds the entry's sizes.
pub fn get_zip_structure(entries: &Vec<ZipEntry>) -> (r: Option<ArchiveNode>)
    ensures
        match r {
            Some(t) => t.wf() && t.view_node() == build_tree(entries@),
            None => !sizes_fit(build_tree(entries@)),
        },
{
    let mut root = new_root();
    let n: usize = entries.len();
    let mut i: usize = 0;
    while i < n
        invariant
            n == entries@.len(),
            i <= n,
            root.wf(),
            root.view_node() == build_tree(entries@.take(i as int)),
        decreases n - i,
    {
        assert(entries@.take(i + 1).drop_last() =~= entries@.take(i as int));
        assert(entries@.take(i + 1).last() == entries@[i as int]);
        let ok = add_entry(&mut root, &entries[i]);
        if !ok {
            proof {
                let q = choose|q: Seq<Seq<char>>|
                    #[trigger] node_at(build_tree(entries@.take(i + 1)), q) matches Some(x) && too_big(
                        x,
                    );
                lemma_build_grows(entries@, i + 1, q);
                assert(!sizes_fit(build_tree(entries@))) by {
                    assert(node_at(build_tree(entries@), q) matches Some(x) && too_big(x));
                }
            }
            return None;
        }
        i = i + 1;
    }
    assert(entries@.take(n as int) =~= entries@);
    Some(root)
}

/// The root of a desktop tree adds up the sizes of all entries that have
/// a path, and so does its compressed size.
pub proof fn lemma_root_size(entries: Seq<ZipEntry>)
    ensures
        build_tree(entries).size == total_size(entries),
    decreases entries.len(),
{
    if entries.len() > 0 {
        lemma_root_size(entries.drop_last());
    }
}

// ---------------------------------------------------------------------
// File names
// ---------------------------------------------------------------------

/// A valid file name on macOS: not empty, at most 255 bytes in UTF-8,
/// neither `.` nor `..`, and holding neither `/` nor a NUL character.
pub open spec fn valid_mac_filename(name: &str) -> bool {
    &&& name@.len() > 0
    &&& name.len() <= 255
    &&& name@ != seq!['.']
    &&& name@ != seq!['.', '.']
    &&& !has_char(name@, '/')
    &&& !has_char(name@, '\0')
}

/// Whether `name` can name a file on macOS; such a name is always one
/// path component.
pub fn is_valid_mac_filename(name: &str) -> (b: bool)
    ensures
        b == valid_mac_filename(name),
        b ==> path_components(name@) == seq![ComponentView::Normal(name@)],
{
    // empty, or longer than 255 bytes
    if name.is_empty() || name.len() > 255 {
        return false;
    }
    let cs = chars_of(name);
    // the reserved names of the current and the parent directory
    let dot: Vec<char> = vec!['.'];
    let dot_dot: Vec<char> = vec!['.', '.'];
    assert(dot@ =~= seq!['.']);
    assert(dot_dot@ =~= seq!['.', '.']);
    if chars_eq(cs.as_slice(), dot.as_slice()) || chars_eq(cs.as_slice(), dot_dot.as_slice()) {
        return false;
    }
    // the separator and the NUL character
    if contains_char(cs.as_slice(), '/') || contains_char(cs.as_slice(), '\0') {
        return false;
    }
    // one component only
    let comps = components(name);
    proof {
        lemma_plain_name_components(name@);
        assert(comps@.map_values(|c: crate::path::PathComponent| c@).len() == 1);
        assert(comps@.len() == 1);
    }
    if comps.len() != 1 {
        return false;
    }
    true
}

/// Whether `filename` is a valid file name (see [`is_valid_mac_filename`]).
pub fn is_filename_valid(filename: &str) -> (b: bool)
    ensures
        b == valid_mac_filename(filename),
{
    is_valid_mac_filename(filename)
}
} // verus!
