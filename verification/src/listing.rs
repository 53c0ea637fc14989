//! What `ls` shows of an archive tree: rows of file details, and the
//! indented tree of a directory.
use vstd::prelude::*;

use crate::archive::{
    ArchiveNode, NodeView, children_map, is_path_prefix, lemma_children_map, lemma_wf_child,
    node_at, names_sorted,
};
use crate::paint::{
    blue, bold_blue, bold_green, green, paint_blue, paint_bold_blue, paint_bold_green, paint_green,
    painted,
};
use crate::path::{
    ComponentView, PathComponent, component_text, components, normal_components, normal_names,
    path_components,
};
use crate::text::{chars_of, push_chars, push_str, string_from_chars};

verus! {

/// One row of a listing table.
pub struct FileDetails {
    pub name: String,
    pub size: u64,
    pub compressed_size: u64,
    pub last_modified: String,
}

/// A node's modification time as the table shows it: empty when unknown.
pub open spec fn time_cell(n: ArchiveNode) -> Seq<char> {
    match n.last_modified {
        Some(s) => s@,
        None => Seq::empty(),
    }
}

/// `r` is the row of node `n`: its sizes and time, and its name, in bold
/// blue for a directory.
pub open spec fn details_ok(r: FileDetails, n: ArchiveNode) -> bool {
    &&& r.size == n.size
    &&& r.compressed_size == n.compressed_size
    &&& r.last_modified@ == time_cell(n)
    &&& if n.is_dir {
        painted(n.name@, r.name@, bold_blue())
    } else {
        r.name@ == n.name@
    }
}

/// `rows` are the rows of `nodes`, one each, in order.
pub open spec fn rows_ok(rows: Seq<FileDetails>, nodes: Seq<ArchiveNode>) -> bool {
    &&& rows.len() == nodes.len()
    &&& forall|i: int| 0 <= i < rows.len() ==> details_ok(#[trigger] rows[i], nodes[i])
}

impl FileDetails {
    /// The row of `node`.
    pub fn from_node(node: &ArchiveNode) -> (r: Self)
        ensures
            details_ok(r, *node),
            match node.last_modified {
                Some(s) => r.last_modified@ == s@,
                None => r.last_modified@.len() == 0,
            },
    {
        let last_modified = match &node.last_modified {
            Some(last_modified) => last_modified.clone(),
            None => String::new(),
        };
        let name = if node.is_dir {
            paint_bold_blue(node.name.as_str())
        } else {
            node.name.clone()
        };
        FileDetails {
            name,
            size: node.size,
            compressed_size: node.compressed_size,
            last_modified,
        }
    }
}

/// A row shows its node's modification time whenever the node has one,
/// and an empty cell when it has none; its sizes are the node's.
pub proof fn lemma_row_time(r: FileDetails, n: ArchiveNode)
    requires
        details_ok(r, n),
    ensures
        match n.last_modified {
            Some(s) => r.last_modified@ == s@,
            None => r.last_modified@.len() == 0,
        },
        r.size == n.size,
        r.compressed_size == n.compressed_size,
{
}

/// The directories among `s`, in order.
pub open spec fn dirs_of(s: Seq<ArchiveNode>) -> Seq<ArchiveNode>
    decreases s.len(),
{
    if s.len() == 0 {
        s
    } else if s.last().is_dir {
        dirs_of(s.drop_last()).push(s.last())
    } else {
        dirs_of(s.drop_last())
    }
}

/// The files among `s`, in order.
pub open spec fn files_of(s: Seq<ArchiveNode>) -> Seq<ArchiveNode>
    decreases s.len(),
{
    if s.len() == 0 {
        s
    } else if !s.last().is_dir {
        files_of(s.drop_last()).push(s.last())
    } else {
        files_of(s.drop_last())
    }
}

/// The nodes a listing of `n` shows: a directory's children, directories
/// first, each group in the order of names; a file itself.
pub open spec fn listing_order(n: ArchiveNode) -> Seq<ArchiveNode> {
    if n.is_dir {
        dirs_of(n.children@) + files_of(n.children@)
    } else {
        seq![n]
    }
}

/// The rows of `children`, directories first.
fn children_rows(children: &Vec<ArchiveNode>) -> (r: Vec<FileDetails>)
    ensures
        rows_ok(r@, dirs_of(children@) + files_of(children@)),
{
    let mut all: Vec<FileDetails> = Vec::new();
    let mut files: Vec<FileDetails> = Vec::new();
    let n: usize = children.len();
    let mut i: usize = 0;
    while i < n
        invariant
            n == children@.len(),
            i <= n,
            rows_ok(all@, dirs_of(children@.take(i as int))),
            rows_ok(files@, files_of(children@.take(i as int))),
        decreases n - i,
    {
        let ghost t = children@.take(i + 1);
        assert(t.drop_last() =~= children@.take(i as int));
        assert(t.last() == children@[i as int]);
        let row = FileDetails::from_node(&children[i]);
        if children[i].is_dir {
            all.push(row);
            assert(rows_ok(all@, dirs_of(t))) by {
                assert forall|j: int| 0 <= j < all@.len() implies details_ok(
                    #[trigger] all@[j],
                    dirs_of(t)[j],
                ) by {
                    if j < all@.len() - 1 {
                        assert(dirs_of(t)[j] == dirs_of(children@.take(i as int))[j]);
                    }
                }
            }
        } else {
            files.push(row);
            assert(rows_ok(files@, files_of(t))) by {
                assert forall|j: int| 0 <= j < files@.len() implies details_ok(
                    #[trigger] files@[j],
                    files_of(t)[j],
                ) by {
                    if j < files@.len() - 1 {
                        assert(files_of(t)[j] == files_of(children@.take(i as int))[j]);
                    }
                }
            }
        }
        i = i + 1;
    }
    assert(children@.take(n as int) =~= children@);
    let ghost d = all@;
    let ghost dn = dirs_of(children@);
    let ghost fnodes = files_of(children@);
    all.append(&mut files);
    assert forall|j: int| 0 <= j < all@.len() implies details_ok(
        #[trigger] all@[j],
        (dn + fnodes)[j],
    ) by {
        if j < d.len() {
            assert(all@[j] == d[j]);
        } else {
            assert((dn + fnodes)[j] == fnodes[j - d.len()]);
        }
    }
    all
}

/// The rows that list `node`: a directory's children, directories first;
/// a file's own row.
pub fn list_file_details(node: &ArchiveNode) -> (r: Vec<FileDetails>)
    ensures
        rows_ok(r@, listing_order(*node)),
{
    if node.is_dir {
        children_rows(&node.children)
    } else {
        let mut all: Vec<FileDetails> = Vec::new();
        all.push(FileDetails::from_node(node));
        all
    }
}

// ---------------------------------------------------------------------
// Finding a node by path
// ---------------------------------------------------------------------

/// The last node of `s` named `name`.
pub open spec fn child_named(s: Seq<ArchiveNode>, name: Seq<char>) -> Option<ArchiveNode>
    decreases s.len(),
{
    if s.len() == 0 {
        None
    } else if s.last().name@ == name {
        Some(s.last())
    } else {
        child_named(s.drop_last(), name)
    }
}

/// Walks down from `n` along `names`: a name that no child has is
/// skipped, the walk staying where it is.
pub open spec fn navigate(n: ArchiveNode, names: Seq<Seq<char>>) -> ArchiveNode
    decreases names.len(),
{
    if names.len() == 0 {
        n
    } else {
        match child_named(n.children@, names[0]) {
            Some(c) => navigate(c, names.drop_first()),
            None => navigate(n, names.drop_first()),
        }
    }
}

proof fn lemma_child_named(s: Seq<ArchiveNode>, name: Seq<char>)
    ensures
        match child_named(s, name) {
            Some(c) => exists|i: int| 0 <= i < s.len() && s[i] == c && c.name@ == name,
            None => forall|i: int| 0 <= i < s.len() ==> #[trigger] s[i].name@ != name,
        },
    decreases s.len(),
{
    if s.len() > 0 {
        lemma_child_named(s.drop_last(), name);
        match child_named(s.drop_last(), name) {
            Some(c) => {
                if s.last().name@ != name {
                    let i = choose|i: int| 0 <= i < s.drop_last().len() && s.drop_last()[i] == c
                        && c.name@ == name;
                    assert(s[i] == c);
                } else {
                    assert(s[s.len() - 1] == s.last());
                }
            },
            None => {
                if s.last().name@ == name {
                    assert(s[s.len() - 1] == s.last());
                } else {
                    assert forall|i: int| 0 <= i < s.len() implies #[trigger] s[i].name@ != name by {
                        if i < s.len() - 1 {
                            assert(s[i] == s.drop_last()[i]);
                        }
                    }
                }
            },
        }
    }
}

/// The child of `children` named `name`, searched as the map of
/// children is walked: a later match replaces an earlier one.
fn find_named<'a>(children: &'a Vec<ArchiveNode>, name: &[char]) -> (r: Option<&'a ArchiveNode>)
    ensures
        match r {
            Some(c) => child_named(children@, name@) == Some(*c),
            None => child_named(children@, name@) is None,
        },
{
    let n: usize = children.len();
    let mut found: Option<&ArchiveNode> = None;
    let mut i: usize = 0;
    while i < n
        invariant
            n == children@.len(),
            i <= n,
            match found {
                Some(c) => child_named(children@.take(i as int), name@) == Some(*c),
                None => child_named(children@.take(i as int), name@) is None,
            },
        decreases n - i,
    {
        let cs = chars_of(children[i].name.as_str());
        assert(children@.take(i + 1).drop_last() =~= children@.take(i as int));
        assert(children@.take(i + 1).last() == children@[i as int]);
        if crate::text::chars_lt(cs.as_slice(), name) || crate::text::chars_lt(name, cs.as_slice()) {
            proof {
                if cs@ == name@ {
                    crate::text::lemma_lex_irreflexive(name@);
                }
            }
        } else {
            proof {
                crate::text::lemma_lex_total(cs@, name@);
            }
            found = Some(&children[i]);
        }
        i = i + 1;
    }
    assert(children@.take(n as int) =~= children@);
    found
}

proof fn lemma_navigate_wf(n: ArchiveNode, names: Seq<Seq<char>>)
    requires
        n.wf(),
    ensures
        navigate(n, names).wf(),
    decreases names.len(),
{
    if names.len() > 0 {
        lemma_child_named(n.children@, names[0]);
        match child_named(n.children@, names[0]) {
            Some(c) => {
                let i = choose|i: int| 0 <= i < n.children@.len() && n.children@[i] == c && c.name@
                    == names[0];
                lemma_wf_child(n, i);
                lemma_navigate_wf(c, names.drop_first());
            },
            None => {
                lemma_navigate_wf(n, names.drop_first());
            },
        }
    }
}

/// The node reached from `node` along `names`.
fn walk<'a>(node: &'a ArchiveNode, names: &Vec<Vec<char>>) -> (r: &'a ArchiveNode)
    ensures
        *r == navigate(*node, names@.map_values(|v: Vec<char>| v@)),
{
    let ghost all = names@.map_values(|v: Vec<char>| v@);
    let mut current: &ArchiveNode = node;
    let k: usize = names.len();
    let mut i: usize = 0;
    assert(all.skip(0) =~= all);
    while i < k
        invariant
            k == names@.len(),
            all == names@.map_values(|v: Vec<char>| v@),
            i <= k,
            navigate(*node, all) == navigate(*current, all.skip(i as int)),
        decreases k - i,
    {
        assert(all.skip(i as int)[0] == names@[i as int]@);
        assert(all.skip(i as int).drop_first() =~= all.skip(i + 1));
        match find_named(&current.children, names[i].as_slice()) {
            Some(c) => {
                current = c;
            },
            None => {},
        }
        i = i + 1;
    }
    current
}

/// The names of the `Normal` components of `path`, as characters.
fn normal_name_chars(path: &str) -> (r: Vec<Vec<char>>)
    ensures
        r@.map_values(|v: Vec<char>| v@) == normal_names(path_components(path@)),
{
    let names = normal_components(path);
    let mut out: Vec<Vec<char>> = Vec::new();
    let n: usize = names.len();
    let mut i: usize = 0;
    while i < n
        invariant
            n == names@.len(),
            i <= n,
            out@.len() == i,
            forall|j: int| 0 <= j < i ==> (#[trigger] out@[j])@ == names@[j]@,
        decreases n - i,
    {
        out.push(chars_of(names[i].as_str()));
        i = i + 1;
    }
    assert(out@.map_values(|v: Vec<char>| v@) =~= names.deep_view());
    out
}

/// The texts of all components of `path`.
fn component_texts(path: &str) -> (r: Vec<Vec<char>>)
    ensures
        r@.map_values(|v: Vec<char>| v@) == path_components(path@).map_values(
            |c: ComponentView| component_text(c),
        ),
{
    let cs = components(path);
    let ghost views = cs@.map_values(|c: PathComponent| c@);
    let mut out: Vec<Vec<char>> = Vec::new();
    let n: usize = cs.len();
    let mut i: usize = 0;
    while i < n
        invariant
            n == cs@.len(),
            views == cs@.map_values(|c: PathComponent| c@),
            i <= n,
            out@.len() == i,
            forall|j: int| 0 <= j < i ==> (#[trigger] out@[j])@ == component_text(views[j]),
        decreases n - i,
    {
        let text: Vec<char> = match &cs[i] {
            PathComponent::RootDir => vec!['/'],
            PathComponent::CurDir => vec!['.'],
            PathComponent::ParentDir => vec!['.', '.'],
            PathComponent::Normal(s) => chars_of(s.as_str()),
        };
        assert(text@ =~= component_text(views[i as int]));
        out.push(text);
        i = i + 1;
    }
    assert(out@.map_values(|v: Vec<char>| v@) =~= views.map_values(
        |c: ComponentView| component_text(c),
    ));
    out
}

/// The rows that list the node at `path`: its `Normal` components are
/// followed down from `node`, a component that no child has being
/// skipped.
pub fn list_file(node: &ArchiveNode, path: &str) -> (r: Vec<FileDetails>)
    ensures
        rows_ok(r@, listing_order(navigate(*node, normal_names(path_components(path@))))),
{
    let names = normal_name_chars(path);
    let target = walk(node, &names);
    list_file_details(target)
}

// ---------------------------------------------------------------------
// The recursive listing
// ---------------------------------------------------------------------

/// One line of the recursive listing: its guide marks, its branch mark
/// and the entry's name, each as painted.
pub struct TreeLine {
    pub guides: String,
    pub branch: String,
    pub name: String,
}

/// What a line of the recursive listing shows, before painting.
pub struct PlainLine {
    pub space_num: nat,
    pub name: Seq<char>,
    pub is_dir: bool,
}

/// `n` copies of `s`.
pub open spec fn repeat(s: Seq<char>, n: nat) -> Seq<char>
    decreases n,
{
    if n == 0 {
        Seq::empty()
    } else {
        repeat(s, (n - 1) as nat) + s
    }
}

/// The guide marks of a line at indentation `space_num`: one `|  ` per
/// level above the parent's.
pub open spec fn guides_text(space_num: nat) -> Seq<char> {
    let h = space_num / 3;
    repeat(seq!['|', ' ', ' '], if h > 0 {
        (h - 1) as nat
    } else {
        0
    })
}

/// The branch mark of a line at indentation `space_num`: `|--` below the
/// top level.
pub open spec fn branch_text(space_num: nat) -> Seq<char> {
    if space_num > 0 {
        seq!['|', '-', '-']
    } else {
        Seq::empty()
    }
}

/// One guide mark: `|` and two spaces.
spec fn guide_unit() -> Seq<char> {
    seq!['|', ' ', ' ']
}

proof fn lemma_guides_shape(n: nat)
    ensures
        repeat(guide_unit(), n).len() == 3 * n,
        forall|i: int|
            0 <= i < 3 * n ==> #[trigger] repeat(guide_unit(), n)[i] == (if i % 3 == 0 {
                '|'
            } else {
                ' '
            }),
    decreases n,
{
    if n > 0 {
        let m = (n - 1) as nat;
        lemma_guides_shape(m);
        let unit = guide_unit();
        let r = repeat(unit, m);
        assert(repeat(unit, n) == r + unit);
        assert forall|i: int| 0 <= i < 3 * n implies #[trigger] repeat(unit, n)[i] == (if i % 3
            == 0 {
            '|'
        } else {
            ' '
        }) by {
            if i < 3 * m {
                assert(repeat(unit, n)[i] == r[i]);
            } else {
                let k = i - 3 * m;
                assert((r + unit)[i] == unit[k]);
                assert(i % 3 == k) by (nonlinear_arith)
                    requires
                        i == 3 * m + k,
                        0 <= k < 3,
                ;
            }
        }
    }
}

/// A line at indentation `3 * d` shows `d - 1` guide marks below the top
/// level and none at the top level, each mark three characters, `|` and
/// two spaces; its branch mark is `|--` below the top level and nothing at
/// it.
pub proof fn lemma_line_marks(l: TreeLine, p: PlainLine, d: nat)
    requires
        line_ok(l, p),
        p.space_num == 3 * d,
    ensures
        exists|g: Seq<char>|
            #[trigger] painted(g, l.guides@, green()) && g.len() == (if d > 0 {
                3 * (d - 1)
            } else {
                0
            }) && forall|i: int| 0 <= i < g.len() ==> g[i] == (if i % 3 == 0 {
                '|'
            } else {
                ' '
            }),
        exists|b: Seq<char>|
            #[trigger] painted(b, l.branch@, bold_green()) && b == (if d > 0 {
                seq!['|', '-', '-']
            } else {
                Seq::<char>::empty()
            }),
{
    assert((3 * d) / 3 == d) by (nonlinear_arith);
    let h: nat = if d > 0 {
        (d - 1) as nat
    } else {
        0
    };
    let g = guides_text(p.space_num);
    assert(g == repeat(guide_unit(), h));
    lemma_guides_shape(h);
    assert(3 * h == (if d > 0 { 3 * (d - 1) } else { 0 }));
    assert(painted(g, l.guides@, green()));
    assert(painted(branch_text(p.space_num), l.branch@, bold_green()));
}

/// `l` shows `p`: green guides, bold green branch, and the name, blue for
/// a directory.
pub open spec fn line_ok(l: TreeLine, p: PlainLine) -> bool {
    &&& painted(guides_text(p.space_num), l.guides@, green())
    &&& painted(branch_text(p.space_num), l.branch@, bold_green())
    &&& if p.is_dir {
        painted(p.name, l.name@, blue())
    } else {
        l.name@ == p.name
    }
}

/// `ls` shows the plain lines `ps` as `ls`.
pub open spec fn lines_ok(ls: Seq<TreeLine>, ps: Seq<PlainLine>) -> bool {
    &&& ls.len() == ps.len()
    &&& forall|i: int| 0 <= i < ls.len() ==> line_ok(#[trigger] ls[i], ps[i])
}

/// The lines listing the contents of `n` at indentation `space_num`:
/// each directory, followed by its own contents one level deeper, then
/// each file.
pub open spec fn tree_lines(n: ArchiveNode, space_num: nat) -> Seq<PlainLine>
    decreases n,
{
    dir_lines(n.children@, space_num) + file_lines(n.children@, space_num)
}

/// The lines of the directories among `s`, each followed by its contents.
pub open spec fn dir_lines(s: Seq<ArchiveNode>, space_num: nat) -> Seq<PlainLine>
    decreases s,
{
    if s.len() == 0 {
        Seq::empty()
    } else {
        let d = s[s.len() - 1];
        dir_lines(s.subrange(0, s.len() - 1), space_num) + if d.is_dir {
            seq![PlainLine { space_num, name: d.name@, is_dir: true }] + tree_lines(
                d,
                space_num + 3,
            )
        } else {
            Seq::empty()
        }
    }
}

/// The lines of the files among `s`.
pub open spec fn file_lines(s: Seq<ArchiveNode>, space_num: nat) -> Seq<PlainLine>
    decreases s.len(),
{
    if s.len() == 0 {
        Seq::empty()
    } else {
        let f = s.last();
        file_lines(s.drop_last(), space_num) + if !f.is_dir {
            seq![PlainLine { space_num, name: f.name@, is_dir: false }]
        } else {
            Seq::empty()
        }
    }
}

/// The number of levels of `n`.
pub open spec fn height(n: ArchiveNode) -> nat
    decreases n,
{
    1 + max_height(n.children@)
}

/// The largest height among `s`.
pub open spec fn max_height(s: Seq<ArchiveNode>) -> nat
    decreases s,
{
    if s.len() == 0 {
        0
    } else {
        let a = max_height(s.subrange(0, s.len() - 1));
        let b = height(s[s.len() - 1]);
        if a > b {
            a
        } else {
            b
        }
    }
}

proof fn lemma_max_height(s: Seq<ArchiveNode>, i: int)
    requires
        0 <= i < s.len(),
    ensures
        height(s[i]) <= max_height(s),
    decreases s.len(),
{
    if i < s.len() - 1 {
        let t = s.subrange(0, s.len() - 1);
        assert(t[i] == s[i]);
        lemma_max_height(t, i);
    }
}

proof fn lemma_navigate_height(n: ArchiveNode, names: Seq<Seq<char>>)
    ensures
        height(navigate(n, names)) <= height(n),
    decreases names.len(),
{
    if names.len() > 0 {
        lemma_child_named(n.children@, names[0]);
        match child_named(n.children@, names[0]) {
            Some(c) => {
                let i = choose|i: int| 0 <= i < n.children@.len() && n.children@[i] == c && c.name@
                    == names[0];
                lemma_max_height(n.children@, i);
                lemma_navigate_height(c, names.drop_first());
            },
            None => {
                lemma_navigate_height(n, names.drop_first());
            },
        }
    }
}

proof fn lemma_max_height_bound(s: Seq<ArchiveNode>, limit: nat)
    requires
        forall|i: int| 0 <= i < s.len() ==> height(#[trigger] s[i]) <= limit,
    ensures
        max_height(s) <= limit,
    decreases s.len(),
{
    if s.len() > 0 {
        let t = s.subrange(0, s.len() - 1);
        assert forall|i: int| 0 <= i < t.len() implies height(#[trigger] t[i]) <= limit by {
            assert(t[i] == s[i]);
        }
        lemma_max_height_bound(t, limit);
        assert(height(s[s.len() - 1]) <= limit);
    }
}

/// Whether `node` has at most `limit` levels.
pub fn height_at_most(node: &ArchiveNode, limit: usize) -> (b: bool)
    ensures
        b == (height(*node) <= limit),
    decreases *node,
{
    if limit == 0 {
        return false;
    }
    let n: usize = node.children.len();
    let mut i: usize = 0;
    while i < n
        invariant
            n == node.children@.len(),
            i <= n,
            limit > 0,
            forall|j: int| 0 <= j < i ==> height(#[trigger] node.children@[j]) <= limit - 1,
        decreases n - i,
    {
        if !height_at_most(&node.children[i], limit - 1) {
            proof {
                lemma_max_height(node.children@, i as int);
            }
            return false;
        }
        i = i + 1;
    }
    proof {
        lemma_max_height_bound(node.children@, (limit - 1) as nat);
    }
    true
}

/// Whether the recursive listing of `node` can count its indentation in
/// a `usize`.
pub fn listable(node: &ArchiveNode) -> (b: bool)
    ensures
        b == (3 * height(*node) <= usize::MAX),
{
    height_at_most(node, usize::MAX / 3)
}

fn repeat_guides(h: usize) -> (r: String)
    ensures
        r@ == repeat(seq!['|', ' ', ' '], h as nat),
{
    let mut s = String::new();
    let mut i: usize = 0;
    while i < h
        invariant
            i <= h,
            s@ == repeat(seq!['|', ' ', ' '], i as nat),
        decreases h - i,
    {
        push_chars(&mut s, &['|', ' ', ' ']);
        i = i + 1;
    }
    s
}

proof fn lemma_take_skip<A>(s: Seq<A>, a: Seq<A>)
    requires
        a.len() <= s.len(),
        s.take(a.len() as int) == a,
    ensures
        s == a + s.skip(a.len() as int),
{
    assert(s =~= s.take(a.len() as int) + s.skip(a.len() as int));
}

proof fn lemma_lines_concat(l1: Seq<TreeLine>, p1: Seq<PlainLine>, l2: Seq<TreeLine>, p2: Seq<PlainLine>)
    requires
        lines_ok(l1, p1),
        lines_ok(l2, p2),
    ensures
        lines_ok(l1 + l2, p1 + p2),
{
    assert forall|i: int| 0 <= i < (l1 + l2).len() implies line_ok(#[trigger] (l1 + l2)[i], (p1 + p2)[i]) by {
        if i < l1.len() {
            assert((l1 + l2)[i] == l1[i]);
            assert((p1 + p2)[i] == p1[i]);
        } else {
            assert((l1 + l2)[i] == l2[i - l1.len()]);
            assert((p1 + p2)[i] == p2[i - p1.len()]);
        }
    }
}

fn clone_line(l: &TreeLine) -> (r: TreeLine)
    ensures
        r.guides@ == l.guides@,
        r.branch@ == l.branch@,
        r.name@ == l.name@,
{
    TreeLine { guides: l.guides.clone(), branch: l.branch.clone(), name: l.name.clone() }
}

/// Appends the lines listing the contents of `node` at indentation
/// `space_num`.
pub fn do_list_recursive(node: &ArchiveNode, space_num: usize, out: &mut Vec<TreeLine>)
    requires
        space_num + 3 * height(*node) <= usize::MAX,
    ensures
        final(out)@.len() >= old(out)@.len(),
        final(out)@.take(old(out)@.len() as int) == old(out)@,
        lines_ok(final(out)@.skip(old(out)@.len() as int), tree_lines(*node, space_num as nat)),
    decreases *node,
{
    let ghost start = out@.len();
    let ghost base = out@;
    let space_step: usize = 3;
    let hierarchy: usize = space_num / space_step;
    let hierarchy: usize = if hierarchy > 0 {
        hierarchy - 1
    } else {
        0
    };
    let guides = paint_green(repeat_guides(hierarchy).as_str());
    let branch = if space_num > 0 {
        let b = paint_bold_green("|--");
        proof {
            reveal_strlit("|--");
            assert("|--"@ =~= branch_text(space_num as nat));
        }
        b
    } else {
        let b = paint_bold_green("");
        proof {
            reveal_strlit("");
            assert(""@ =~= branch_text(space_num as nat));
        }
        b
    };
    let children = &node.children;
    let n: usize = children.len();
    let mut i: usize = 0;
    assert(children@.take(0) =~= Seq::<ArchiveNode>::empty());
    assert(out@.skip(start as int) =~= Seq::<TreeLine>::empty());
    while i < n
        invariant
            n == children@.len(),
            children@ == node.children@,
            i <= n,
            space_num + 3 * height(*node) <= usize::MAX,
            start <= out@.len(),
            start == base.len(),
            out@.take(start as int) == base,
            base.len() == start,
            painted(guides_text(space_num as nat), guides@, green()),
            painted(branch_text(space_num as nat), branch@, bold_green()),
            lines_ok(
                out@.skip(start as int),
                dir_lines(children@.take(i as int), space_num as nat),
            ),
        decreases n - i,
    {
        let ghost t = children@.take(i + 1);
        assert(t.subrange(0, t.len() - 1) =~= children@.take(i as int));
        assert(t[t.len() - 1] == children@[i as int]);
        let d = &children[i];
        if d.is_dir {
            let ghost before = out@;
            let name = paint_blue(d.name.as_str());
            let line = TreeLine { guides: guides.clone(), branch: branch.clone(), name };
            let ghost l = line;
            out.push(line);
            let ghost after_push = out@;
            proof {
                lemma_max_height(node.children@, i as int);
                assert(height(*node) == 1 + max_height(node.children@));
                assert(*d == node.children@[i as int]);
                assert(height(*d) + 1 <= height(*node));
                assert(space_num + 3 + 3 * height(*d) <= space_num + 3 * height(*node));
            }
            do_list_recursive(d, space_num + 3, out);
            proof {
                let prev_lines = dir_lines(children@.take(i as int), space_num as nat);
                let own = seq![PlainLine { space_num: space_num as nat, name: d.name@, is_dir: true }];
                let sub = tree_lines(*d, (space_num + 3) as nat);
                assert(dir_lines(t, space_num as nat) == prev_lines + (own + sub));
                lemma_take_skip(out@, after_push);
                lemma_take_skip(before, base);
                let rest = out@.skip(after_push.len() as int);
                let mine = before.skip(start as int);
                assert(after_push =~= base + mine.push(l));
                assert(out@ =~= base + (mine + (seq![l] + rest)));
                assert(out@.take(start as int) =~= base);
                assert(out@.skip(start as int) =~= mine + (seq![l] + rest));
                assert(line_ok(l, own[0]));
                assert(lines_ok(seq![l], own));
                lemma_lines_concat(seq![l], own, rest, sub);
                lemma_lines_concat(mine, prev_lines, seq![l] + rest, own + sub);
            }
        } else {
            assert(dir_lines(t, space_num as nat) =~= dir_lines(
                children@.take(i as int),
                space_num as nat,
            ));
        }
        i = i + 1;
    }
    assert(children@.take(n as int) =~= children@);
    let ghost after_dirs = out@.len();
    let mut k: usize = 0;
    assert(children@.take(0) =~= Seq::<ArchiveNode>::empty());
    while k < n
        invariant
            n == children@.len(),
            children@ == node.children@,
            k <= n,
            start <= after_dirs <= out@.len(),
            out@.take(start as int) == base,
            base.len() == start,
            painted(guides_text(space_num as nat), guides@, green()),
            painted(branch_text(space_num as nat), branch@, bold_green()),
            lines_ok(
                out@.skip(start as int),
                dir_lines(node.children@, space_num as nat) + file_lines(
                    children@.take(k as int),
                    space_num as nat,
                ),
            ),
        decreases n - k,
    {
        let ghost t = children@.take(k + 1);
        assert(t.drop_last() =~= children@.take(k as int));
        assert(t.last() == children@[k as int]);
        let f = &children[k];
        if !f.is_dir {
            let ghost before = out@;
            let ghost expected = dir_lines(node.children@, space_num as nat) + file_lines(
                children@.take(k as int),
                space_num as nat,
            );
            let line = TreeLine { guides: guides.clone(), branch: branch.clone(), name: f.name.clone() };
            let ghost l = line;
            out.push(line);
            proof {
                let pl = PlainLine { space_num: space_num as nat, name: f.name@, is_dir: false };
                assert(dir_lines(node.children@, space_num as nat) + file_lines(t, space_num as nat)
                    =~= expected + seq![pl]);
                lemma_take_skip(before, base);
                let mine = before.skip(start as int);
                assert(out@ =~= base + (mine + seq![l]));
                assert(out@.take(start as int) =~= base);
                assert(out@.skip(start as int) =~= mine + seq![l]);
                assert(line_ok(l, pl));
                assert(lines_ok(seq![l], seq![pl]));
                lemma_lines_concat(mine, expected, seq![l], seq![pl]);
            }
        } else {
            assert(file_lines(t, space_num as nat) =~= file_lines(
                children@.take(k as int),
                space_num as nat,
            ));
        }
        k = k + 1;
    }
    assert(children@.take(n as int) =~= children@);
}

/// The recursive listing of the node at `path` (or of `node` itself):
/// the components of `path` are matched, as text, against child names,
/// a component that matches none being skipped.
pub fn list_recursive(node: &ArchiveNode, path: Option<&str>) -> (r: Vec<TreeLine>)
    requires
        3 * height(*node) <= usize::MAX,
    ensures
        lines_ok(
            r@,
            tree_lines(
                match path {
                    Some(p) => navigate(
                        *node,
                        path_components(p@).map_values(|c: ComponentView| component_text(c)),
                    ),
                    None => *node,
                },
                0,
            ),
        ),
{
    let current: &ArchiveNode = match path {
        Some(p) => {
            let texts = component_texts(p);
            walk(node, &texts)
        },
        None => node,
    };
    proof {
        match path {
            Some(p) => {
                lemma_navigate_height(
                    *node,
                    path_components(p@).map_values(|c: ComponentView| component_text(c)),
                );
            },
            None => {},
        }
    }
    let mut out: Vec<TreeLine> = Vec::new();
    do_list_recursive(current, 0, &mut out);
    assert(out@.skip(0) =~= out@);
    out
}

// ---------------------------------------------------------------------
// Finding what the archive holds
// ---------------------------------------------------------------------

/// In a well-formed tree, walking along a path that exists reaches the
/// node at that path.
pub proof fn lemma_navigate_reaches(n: ArchiveNode, p: Seq<Seq<char>>)
    requires
        n.wf(),
        node_at(n.view_node(), p) is Some,
    ensures
        navigate(n, p).view_node() == node_at(n.view_node(), p).unwrap(),
    decreases p.len(),
{
    if p.len() > 0 {
        lemma_children_map(n.children@);
        lemma_child_named(n.children@, p[0]);
        assert(children_map(n.children@).contains_key(p[0]));
        let j = choose|j: int| 0 <= j < n.children@.len() && n.children@[j].name@ == p[0];
        match child_named(n.children@, p[0]) {
            Some(c) => {
                let i = choose|i: int| 0 <= i < n.children@.len() && n.children@[i] == c && c.name@
                    == p[0];
                if i != j {
                    crate::archive::lemma_sorted_unique(n.children@, i, j);
                }
                lemma_wf_child(n, i);
                assert(n.view_node().children[p[0]] == c.view_node());
                lemma_navigate_reaches(c, p.drop_first());
            },
            None => {
                assert(n.children@[j].name@ != p[0]);
            },
        }
    }
}

/// Listing any entry of an archive by its own name, with or without its
/// trailing `/`, finds that entry's node: `list_file` walks to it.
pub proof fn lemma_list_finds_entry(
    t: ArchiveNode,
    entries: Seq<crate::archive::ZipEntry>,
    i: int,
)
    requires
        t.wf(),
        t.view_node() == crate::archive::build_tree(entries),
        0 <= i < entries.len(),
    ensures
        node_at(t.view_node(), crate::archive::entry_path(entries[i])) is Some,
        navigate(t, normal_names(path_components(entries[i].name@))).view_node() == node_at(
            t.view_node(),
            crate::archive::entry_path(entries[i]),
        ).unwrap(),
        navigate(t, crate::archive::entry_path(entries[i])) == navigate(
            t,
            normal_names(path_components(entries[i].name@)),
        ),
{
    crate::archive::lemma_entry_in_tree(entries, i);
    lemma_navigate_reaches(t, crate::archive::entry_path(entries[i]));
    crate::path::lemma_trailing_slash_names(entries[i].name@);
}

// ---------------------------------------------------------------------
// The listing of `ls`
// ---------------------------------------------------------------------

/// One part of what `ls` prints.
pub enum ListItem {
    /// A requested path that the archive does not hold: the message.
    Missing(String),
    /// An empty line between the sections of several paths.
    Separator,
    /// The heading of one path's section.
    Title(String),
    /// A table of rows.
    Table(Vec<FileDetails>),
    /// A recursive listing.
    Tree(Vec<TreeLine>),
}

/// One part of a listing, before painting.
pub enum PlanItem {
    Missing(Seq<char>),
    Separator,
    Title(Seq<char>),
    Table(Seq<ArchiveNode>),
    Tree(ArchiveNode),
}

/// `it` shows `p`.
pub open spec fn item_ok(it: ListItem, p: PlanItem) -> bool {
    match (it, p) {
        (ListItem::Missing(m), PlanItem::Missing(k)) => m@ == k + missing_suffix(),
        (ListItem::Separator, PlanItem::Separator) => true,
        (ListItem::Title(t), PlanItem::Title(k)) => painted(k + title_suffix(), t@, bold_green()),
        (ListItem::Table(rows), PlanItem::Table(nodes)) => rows_ok(rows@, nodes),
        (ListItem::Tree(lines), PlanItem::Tree(n)) => lines_ok(lines@, tree_lines(n, 0)),
        _ => false,
    }
}

pub open spec fn items_ok(its: Seq<ListItem>, ps: Seq<PlanItem>) -> bool {
    &&& its.len() == ps.len()
    &&& forall|i: int| 0 <= i < its.len() ==> item_ok(#[trigger] its[i], ps[i])
}

/// The text after a path that the archive does not hold.
pub open spec fn missing_suffix() -> Seq<char> {
    ": No such file or directory"@
}

/// The text after a path in a section heading.
pub open spec fn title_suffix() -> Seq<char> {
    seq![':', ' ']
}

/// How many requested paths the archive holds.
pub open spec fn count_found(m: Seq<(Seq<char>, bool)>) -> nat
    decreases m.len(),
{
    if m.len() == 0 {
        0
    } else {
        count_found(m.drop_last()) + if m.last().1 {
            1nat
        } else {
            0nat
        }
    }
}

/// The texts of the components of `k`.
pub open spec fn texts_of(k: Seq<char>) -> Seq<Seq<char>> {
    path_components(k).map_values(|c: ComponentView| component_text(c))
}

/// What one requested path contributes: a message when the archive lacks
/// it; otherwise, when several paths exist, a heading (after an empty
/// line but for the first), and then its listing.
pub open spec fn key_plan(
    tree: ArchiveNode,
    k: Seq<char>,
    found: bool,
    recursive: bool,
    total: nat,
    before: nat,
) -> Seq<PlanItem> {
    if !found {
        seq![PlanItem::Missing(k)]
    } else {
        (if total > 1 {
            (if before > 0 {
                seq![PlanItem::Separator]
            } else {
                Seq::empty()
            }) + seq![PlanItem::Title(k)]
        } else {
            Seq::empty()
        }) + seq![
            if recursive {
                PlanItem::Tree(navigate(tree, texts_of(k)))
            } else {
                PlanItem::Table(listing_order(navigate(tree, normal_names(path_components(k)))))
            },
        ]
    }
}

/// The parts for the requested paths `m`, in order.
pub open spec fn keys_plan(tree: ArchiveNode, m: Seq<(Seq<char>, bool)>, recursive: bool, total: nat) -> Seq<
    PlanItem,
>
    decreases m.len(),
{
    if m.len() == 0 {
        Seq::empty()
    } else {
        keys_plan(tree, m.drop_last(), recursive, total) + key_plan(
            tree,
            m.last().0,
            m.last().1,
            recursive,
            total,
            count_found(m.drop_last()),
        )
    }
}

/// What `ls` prints of an archive: for requested paths, each one's part;
/// without any, the table of the top level, or its recursive listing.
pub open spec fn list_plan(tree: ArchiveNode, m: Seq<(Seq<char>, bool)>, recursive: bool) -> Seq<PlanItem> {
    if m.len() > 0 {
        keys_plan(tree, m, recursive, count_found(m))
    } else if !recursive {
        seq![PlanItem::Table(dirs_of(tree.children@) + files_of(tree.children@))]
    } else {
        seq![PlanItem::Tree(tree)]
    }
}

proof fn lemma_count_found_take(m: Seq<(Seq<char>, bool)>, i: int)
    requires
        0 <= i < m.len(),
    ensures
        count_found(m.take(i + 1)) == count_found(m.take(i)) + if m[i].1 {
            1nat
        } else {
            0nat
        },
        count_found(m.take(i)) <= count_found(m),
    decreases m.len(),
{
    assert(m.take(i + 1).drop_last() =~= m.take(i));
    if i < m.len() - 1 {
        lemma_count_found_take(m.drop_last(), i);
        assert(m.drop_last().take(i) =~= m.take(i));
        assert(m.drop_last().take(i + 1) =~= m.take(i + 1));
    } else {
        assert(m.take(i + 1) =~= m);
    }
}

proof fn lemma_items_push(its: Seq<ListItem>, ps: Seq<PlanItem>, it: ListItem, p: PlanItem)
    requires
        items_ok(its, ps),
        item_ok(it, p),
    ensures
        items_ok(its.push(it), ps.push(p)),
{
    assert forall|i: int| 0 <= i < its.push(it).len() implies item_ok(#[trigger] its.push(it)[i], ps.push(p)[i]) by {
        if i < its.len() {
            assert(its.push(it)[i] == its[i]);
        }
    }
}

fn missing_message(k: &str) -> (r: String)
    ensures
        r@ == k@ + missing_suffix(),
{
    let mut s = crate::text::string_of(k);
    push_str(&mut s, ": No such file or directory");
    s
}

fn count_existing(m: &Vec<(String, bool)>) -> (c: usize)
    ensures
        c == count_found(m@.map_values(|p: (String, bool)| (p.0@, p.1))),
{
    let ghost mv = m@.map_values(|p: (String, bool)| (p.0@, p.1));
    let n: usize = m.len();
    let mut c: usize = 0;
    let mut i: usize = 0;
    assert(mv.take(0) =~= Seq::<(Seq<char>, bool)>::empty());
    while i < n
        invariant
            n == m@.len(),
            mv == m@.map_values(|p: (String, bool)| (p.0@, p.1)),
            i <= n,
            c == count_found(mv.take(i as int)),
            c <= i,
        decreases n - i,
    {
        proof {
            lemma_count_found_take(mv, i as int);
        }
        if m[i].1 {
            c = c + 1;
        }
        i = i + 1;
    }
    assert(mv.take(n as int) =~= mv);
    c
}

/// What `ls` prints of the archive tree `tree` with the record `path_map`
/// of requested paths (see [`list_plan`]).
pub fn list(tree: &ArchiveNode, path_map: &Vec<(String, bool)>, recursive: bool) -> (r: Vec<
    ListItem,
>)
    requires
        tree.wf(),
        3 * height(*tree) <= usize::MAX,
        count_found(path_map@.map_values(|p: (String, bool)| (p.0@, p.1))) <= 255,
    ensures
        items_ok(
            r@,
            list_plan(*tree, path_map@.map_values(|p: (String, bool)| (p.0@, p.1)), recursive),
        ),
{
    let ghost mv = path_map@.map_values(|p: (String, bool)| (p.0@, p.1));
    let mut out: Vec<ListItem> = Vec::new();
    if path_map.len() > 0 {
        let existing_count: usize = count_existing(path_map);
        let mut c: u8 = 0;
        let n: usize = path_map.len();
        let mut i: usize = 0;
        assert(mv.take(0) =~= Seq::<(Seq<char>, bool)>::empty());
        while i < n
            invariant
                n == path_map@.len(),
                mv == path_map@.map_values(|p: (String, bool)| (p.0@, p.1)),
                i <= n,
                existing_count == count_found(mv),
                existing_count <= 255,
                3 * height(*tree) <= usize::MAX,
                existing_count > 1 ==> c == count_found(mv.take(i as int)),
                items_ok(out@, keys_plan(*tree, mv.take(i as int), recursive, existing_count as nat)),
            decreases n - i,
        {
            proof {
                lemma_count_found_take(mv, i as int);
                assert(mv.take(i + 1).drop_last() =~= mv.take(i as int));
                assert(mv.take(i + 1).last() == mv[i as int]);
            }
            let ghost before_items = keys_plan(*tree, mv.take(i as int), recursive, existing_count as nat);
            let ghost kp = key_plan(
                *tree,
                mv[i as int].0,
                mv[i as int].1,
                recursive,
                existing_count as nat,
                count_found(mv.take(i as int)),
            );
            assert(keys_plan(*tree, mv.take(i + 1), recursive, existing_count as nat) == before_items + kp);
            let k: &str = path_map[i].0.as_str();
            assert(k@ == mv[i as int].0);
            if !path_map[i].1 {
                let msg = missing_message(k);
                let ghost it = ListItem::Missing(msg);
                proof {
                    lemma_items_push(out@, before_items, it, PlanItem::Missing(k@));
                    assert(before_items.push(PlanItem::Missing(k@)) =~= before_items + kp);
                }
                out.push(ListItem::Missing(msg));
            } else {
                let ghost mut plan = before_items;
                if existing_count > 1 {
                    if c > 0 {
                        proof {
                            lemma_items_push(out@, plan, ListItem::Separator, PlanItem::Separator);
                            plan = plan.push(PlanItem::Separator);
                        }
                        out.push(ListItem::Separator);
                    }
                    let mut title = crate::text::string_of(k);
                    push_chars(&mut title, &[':', ' ']);
                    let painted_title = paint_bold_green(title.as_str());
                    proof {
                        lemma_items_push(out@, plan, ListItem::Title(painted_title), PlanItem::Title(k@));
                        plan = plan.push(PlanItem::Title(k@));
                    }
                    out.push(ListItem::Title(painted_title));
                    proof {
                        if i + 1 < n {
                            lemma_count_found_take(mv, i + 1);
                        } else {
                            assert(mv.take(i + 1) =~= mv);
                        }
                    }
                    c = c + 1;
                }
                if recursive {
                    proof {
                        lemma_navigate_height(*tree, texts_of(k@));
                    }
                    let lines = list_recursive(tree, Some(k));
                    let ghost it = ListItem::Tree(lines);
                    proof {
                        lemma_items_push(out@, plan, it, PlanItem::Tree(navigate(*tree, texts_of(k@))));
                        plan = plan.push(PlanItem::Tree(navigate(*tree, texts_of(k@))));
                    }
                    out.push(ListItem::Tree(lines));
                } else {
                    let rows = list_file(tree, k);
                    let ghost it = ListItem::Table(rows);
                    let ghost pi = PlanItem::Table(
                        listing_order(navigate(*tree, normal_names(path_components(k@)))),
                    );
                    proof {
                        lemma_items_push(out@, plan, it, pi);
                        plan = plan.push(pi);
                    }
                    out.push(ListItem::Table(rows));
                }
                assert(plan =~= before_items + kp);
            }
            i = i + 1;
        }
        assert(mv.take(n as int) =~= mv);
    } else {
        if !recursive {
            let rows = children_rows(&tree.children);
            out.push(ListItem::Table(rows));
        } else {
            let lines = list_recursive(tree, None);
            out.push(ListItem::Tree(lines));
        }
    }
    out
}

} // verus!
