//! Unix paths as `std::path::Path` reads them: the components of a path,
//! its file name and extension, and joining two paths.
use vstd::prelude::*;

use crate::text::{chars_of, push_chars, string_from_chars, trim_end};

verus! {

/// One component of a path (`std::path::Component` on Unix).
pub enum PathComponent {
    RootDir,
    CurDir,
    ParentDir,
    Normal(String),
}

/// What a [`PathComponent`] holds, as plain values.
pub enum ComponentView {
    RootDir,
    CurDir,
    ParentDir,
    Normal(Seq<char>),
}

impl View for PathComponent {
    type V = ComponentView;

    open spec fn view(&self) -> ComponentView {
        match self {
            PathComponent::RootDir => ComponentView::RootDir,
            PathComponent::CurDir => ComponentView::CurDir,
            PathComponent::ParentDir => ComponentView::ParentDir,
            PathComponent::Normal(s) => ComponentView::Normal(s@),
        }
    }
}

/// The pieces of `s` between `/` separators, empty pieces included;
/// there is always at least one piece.
pub open spec fn split_slash(s: Seq<char>) -> Seq<Seq<char>>
    decreases s.len(),
{
    if s.len() == 0 {
        seq![Seq::<char>::empty()]
    } else if s.last() == '/' {
        split_slash(s.drop_last()).push(Seq::<char>::empty())
    } else {
        let ps = split_slash(s.drop_last());
        ps.update(ps.len() - 1, ps.last().push(s.last()))
    }
}

/// The component that one piece contributes: empty pieces and `.` vanish,
/// except a `.` that starts a relative path.
pub open spec fn piece_component(piece: Seq<char>, at_start: bool) -> Seq<ComponentView> {
    if piece.len() == 0 {
        Seq::empty()
    } else if piece == seq!['.'] {
        if at_start {
            seq![ComponentView::CurDir]
        } else {
            Seq::empty()
        }
    } else if piece == seq!['.', '.'] {
        seq![ComponentView::ParentDir]
    } else {
        seq![ComponentView::Normal(piece)]
    }
}

/// The components of a sequence of pieces; the first piece of a relative
/// path may be `.`.
pub open spec fn pieces_components(ps: Seq<Seq<char>>, relative: bool) -> Seq<ComponentView>
    decreases ps.len(),
{
    if ps.len() == 0 {
        Seq::empty()
    } else {
        pieces_components(ps.drop_last(), relative) + piece_component(
            ps.last(),
            relative && ps.len() == 1,
        )
    }
}

/// `p` starts at the root.
pub open spec fn is_absolute_path(p: Seq<char>) -> bool {
    p.len() > 0 && p[0] == '/'
}

/// The components of the path `p`: a leading `/` is the root; repeated
/// and trailing separators are ignored; `.` is dropped except at the start
/// of a relative path; `..` is the parent.
pub open spec fn path_components(p: Seq<char>) -> Seq<ComponentView> {
    if is_absolute_path(p) {
        seq![ComponentView::RootDir] + pieces_components(split_slash(p.drop_first()), false)
    } else {
        pieces_components(split_slash(p), true)
    }
}

/// The names of the `Normal` components, in order.
pub open spec fn normal_names(cs: Seq<ComponentView>) -> Seq<Seq<char>>
    decreases cs.len(),
{
    if cs.len() == 0 {
        Seq::empty()
    } else {
        match cs.last() {
            ComponentView::Normal(n) => normal_names(cs.drop_last()).push(n),
            _ => normal_names(cs.drop_last()),
        }
    }
}

/// The text of a component (`Component::as_os_str`).
pub open spec fn component_text(c: ComponentView) -> Seq<char> {
    match c {
        ComponentView::RootDir => seq!['/'],
        ComponentView::CurDir => seq!['.'],
        ComponentView::ParentDir => seq!['.', '.'],
        ComponentView::Normal(n) => n,
    }
}

proof fn lemma_split_nonempty(s: Seq<char>)
    ensures
        split_slash(s).len() >= 1,
    decreases s.len(),
{
    if s.len() > 0 {
        lemma_split_nonempty(s.drop_last());
    }
}

/// Every piece of a split holds no separator.
pub proof fn lemma_split_pieces_have_no_slash(s: Seq<char>)
    ensures
        forall|k: int, j: int|
            0 <= k < split_slash(s).len() && 0 <= j < split_slash(s)[k].len() ==> split_slash(
                s,
            )[k][j] != '/',
    decreases s.len(),
{
    lemma_split_nonempty(s);
    if s.len() > 0 {
        lemma_split_pieces_have_no_slash(s.drop_last());
        lemma_split_nonempty(s.drop_last());
        let ps = split_slash(s.drop_last());
        if s.last() != '/' {
            assert forall|k: int, j: int|
                0 <= k < split_slash(s).len() && 0 <= j < split_slash(s)[k].len() implies split_slash(
                s,
            )[k][j] != '/' by {
                if k == ps.len() - 1 {
                    if j < ps.last().len() {
                        assert(split_slash(s)[k][j] == ps[k][j]);
                    }
                } else {
                    assert(split_slash(s)[k] == ps[k]);
                }
            }
        } else {
            assert forall|k: int, j: int|
                0 <= k < split_slash(s).len() && 0 <= j < split_slash(s)[k].len() implies split_slash(
                s,
            )[k][j] != '/' by {
                assert(split_slash(s)[k] == ps.push(Seq::<char>::empty())[k]);
            }
        }
    }
}

fn emit_piece(out: &mut Vec<PathComponent>, piece: &Vec<char>, at_start: bool)
    ensures
        final(out)@.map_values(|c: PathComponent| c@) == old(out)@.map_values(
            |c: PathComponent| c@,
        ) + piece_component(piece@, at_start),
{
    let ghost before = out@.map_values(|c: PathComponent| c@);
    let n: usize = piece.len();
    if n == 0 {
        assert(out@.map_values(|c: PathComponent| c@) =~= before + Seq::<ComponentView>::empty());
    } else if n == 1 && piece[0] == '.' {
        assert(piece@ =~= seq!['.']);
        if at_start {
            out.push(PathComponent::CurDir);
            assert(out@.map_values(|c: PathComponent| c@) =~= before + seq![ComponentView::CurDir]);
        } else {
            assert(out@.map_values(|c: PathComponent| c@) =~= before + Seq::<ComponentView>::empty());
        }
    } else if n == 2 && piece[0] == '.' && piece[1] == '.' {
        assert(piece@ =~= seq!['.', '.']);
        assert(piece@ != seq!['.']);
        out.push(PathComponent::ParentDir);
        assert(out@.map_values(|c: PathComponent| c@) =~= before + seq![ComponentView::ParentDir]);
    } else {
        assert(piece@ != seq!['.']) by {
            if n == 1 {
                assert(piece@[0] != seq!['.'][0]);
            }
        }
        assert(piece@ != seq!['.', '.']) by {
            if n == 2 {
                assert(piece@[0] != '.' || piece@[1] != '.');
                if piece@[0] != '.' {
                    assert(piece@[0] != seq!['.', '.'][0]);
                } else {
                    assert(piece@[1] != seq!['.', '.'][1]);
                }
            }
        }
        let name = string_from_chars(piece.as_slice());
        out.push(PathComponent::Normal(name));
        assert(out@.map_values(|c: PathComponent| c@) =~= before + seq![
            ComponentView::Normal(piece@),
        ]);
    }
}

/// The components of `path` (`Path::components`).
pub fn components(path: &str) -> (r: Vec<PathComponent>)
    ensures
        r@.map_values(|c: PathComponent| c@) == path_components(path@),
{
    let cs = chars_of(path);
    let n: usize = cs.len();
    let absolute: bool = n > 0 && cs[0] == '/';
    let start: usize = if absolute {
        1
    } else {
        0
    };
    let ghost rest = cs@.skip(start as int);
    let ghost relative = !absolute;
    let mut out: Vec<PathComponent> = Vec::new();
    if absolute {
        out.push(PathComponent::RootDir);
    }
    let ghost head: Seq<ComponentView> = if absolute {
        seq![ComponentView::RootDir]
    } else {
        Seq::empty()
    };
    assert(out@.map_values(|c: PathComponent| c@) =~= head);
    let mut cur: Vec<char> = Vec::new();
    let mut first: bool = true;
    let mut i: usize = start;
    assert(rest.take(0) =~= Seq::<char>::empty());
    assert(split_slash(rest.take(0)).drop_last() =~= Seq::<Seq<char>>::empty());
    assert(head + Seq::<ComponentView>::empty() =~= head);
    while i < n
        invariant
            n == cs@.len(),
            cs@ == path@,
            start <= i <= n,
            rest == cs@.skip(start as int),
            relative == !absolute,
            absolute == (n > 0 && cs@[0] == '/'),
            start == (if absolute {
                1usize
            } else {
                0usize
            }),
            head == (if absolute {
                seq![ComponentView::RootDir]
            } else {
                Seq::<ComponentView>::empty()
            }),
            split_slash(rest.take(i - start)).len() >= 1,
            out@.map_values(|c: PathComponent| c@) == head + pieces_components(
                split_slash(rest.take(i - start)).drop_last(),
                relative,
            ),
            cur@ == split_slash(rest.take(i - start)).last(),
            first == (split_slash(rest.take(i - start)).len() == 1),
        decreases n - i,
    {
        let ghost ps = split_slash(rest.take(i - start));
        assert(rest.take(i + 1 - start) =~= rest.take(i - start).push(cs@[i as int]));
        assert(rest.take(i + 1 - start).drop_last() =~= rest.take(i - start));
        if cs[i] == '/' {
            emit_piece(&mut out, &cur, !absolute && first);
            proof {
                let nps = split_slash(rest.take(i + 1 - start));
                assert(nps == ps.push(Seq::<char>::empty()));
                assert(nps.drop_last() =~= ps);
                assert(ps.drop_last().push(ps.last()) =~= ps);
                assert(pieces_components(ps, relative) == pieces_components(ps.drop_last(), relative)
                    + piece_component(ps.last(), relative && ps.len() == 1));
                assert(head + pieces_components(ps.drop_last(), relative) + piece_component(
                    ps.last(),
                    relative && ps.len() == 1,
                ) =~= head + pieces_components(ps, relative));
            }
            cur = Vec::new();
            first = false;
            proof {
                assert(cur@ =~= split_slash(rest.take(i + 1 - start)).last());
            }
        } else {
            cur.push(cs[i]);
            proof {
                let nps = split_slash(rest.take(i + 1 - start));
                assert(nps == ps.update(ps.len() - 1, ps.last().push(cs@[i as int])));
                assert(nps.drop_last() =~= ps.drop_last());
            }
        }
        i = i + 1;
    }
    let ghost ps = split_slash(rest.take(n - start));
    emit_piece(&mut out, &cur, !absolute && first);
    proof {
        assert(rest.take(n - start) =~= rest);
        assert(ps.drop_last().push(ps.last()) =~= ps);
        assert(head + pieces_components(ps.drop_last(), relative) + piece_component(
            ps.last(),
            relative && ps.len() == 1,
        ) =~= head + pieces_components(ps, relative));
        if absolute {
            assert(rest =~= path@.drop_first());
        } else {
            assert(rest =~= path@);
            assert(head + pieces_components(ps, relative) =~= pieces_components(ps, relative));
        }
    }
    out
}

/// The names of the `Normal` components of `path`, in order.
pub fn normal_components(path: &str) -> (r: Vec<String>)
    ensures
        r.deep_view() == normal_names(path_components(path@)),
{
    let cs = components(path);
    let ghost views = cs@.map_values(|c: PathComponent| c@);
    let mut out: Vec<String> = Vec::new();
    let n: usize = cs.len();
    let mut i: usize = 0;
    while i < n
        invariant
            n == cs@.len(),
            views == cs@.map_values(|c: PathComponent| c@),
            i <= n,
            out.deep_view() == normal_names(views.take(i as int)),
        decreases n - i,
    {
        assert(views.take(i + 1).drop_last() =~= views.take(i as int));
        assert(views.take(i + 1).last() == cs@[i as int]@);
        match &cs[i] {
            PathComponent::Normal(s) => {
                let t = string_from_chars(chars_of(s.as_str()).as_slice());
                out.push(t);
                assert(out.deep_view() =~= normal_names(views.take(i as int)).push(s@));
            },
            _ => {},
        }
        i = i + 1;
    }
    assert(views.take(n as int) =~= views);
    out
}

/// The file name of `p`: its last component, when that is a name.
pub open spec fn file_name_of(p: Seq<char>) -> Option<Seq<char>> {
    let cs = path_components(p);
    if cs.len() > 0 {
        match cs.last() {
            ComponentView::Normal(n) => Some(n),
            _ => None,
        }
    } else {
        None
    }
}

/// The position of the last `.` in `s`, or -1 when there is none.
pub open spec fn last_dot(s: Seq<char>) -> int
    decreases s.len(),
{
    if s.len() == 0 {
        -1
    } else if s.last() == '.' {
        s.len() - 1
    } else {
        last_dot(s.drop_last())
    }
}

/// The extension of a file name: what follows its last `.`, unless the
/// name has no `.` or its only leading part is empty.
pub open spec fn name_extension(name: Seq<char>) -> Option<Seq<char>> {
    let k = last_dot(name);
    if k <= 0 {
        None
    } else {
        Some(name.skip(k + 1))
    }
}

/// The extension of the path `p` (`Path::extension`).
pub open spec fn extension_of(p: Seq<char>) -> Option<Seq<char>> {
    match file_name_of(p) {
        Some(n) => name_extension(n),
        None => None,
    }
}

/// The file name of `path` (`Path::file_name`).
pub fn file_name(path: &str) -> (r: Option<String>)
    ensures
        match r {
            Some(s) => file_name_of(path@) == Some(s@),
            None => file_name_of(path@) is None,
        },
{
    let mut cs = components(path);
    let ghost views = cs@.map_values(|c: PathComponent| c@);
    match cs.pop() {
        Some(PathComponent::Normal(s)) => {
            assert(views.last() == ComponentView::Normal(s@));
            Some(s)
        },
        Some(c) => {
            assert(views.last() == c@);
            None
        },
        None => None,
    }
}

proof fn lemma_last_dot_range(s: Seq<char>)
    ensures
        -1 <= last_dot(s) < s.len(),
        last_dot(s) >= 0 ==> s[last_dot(s)] == '.',
        forall|j: int| last_dot(s) < j < s.len() ==> s[j] != '.',
    decreases s.len(),
{
    if s.len() > 0 && s.last() != '.' {
        lemma_last_dot_range(s.drop_last());
        assert forall|j: int| last_dot(s) < j < s.len() implies s[j] != '.' by {
            if j < s.len() - 1 {
                assert(s[j] == s.drop_last()[j]);
            }
        }
    }
}

/// The extension of a file name.
pub fn extension_of_name(name: &[char]) -> (r: Option<Vec<char>>)
    ensures
        match r {
            Some(v) => name_extension(name@) == Some(v@),
            None => name_extension(name@) is None,
        },
{
    let n: usize = name.len();
    let mut k: usize = n;
    assert(name@.take(n as int) =~= name@);
    while k > 0 && name[k - 1] != '.'
        invariant
            k <= n,
            n == name@.len(),
            last_dot(name@) == last_dot(name@.take(k as int)),
        decreases k,
    {
        assert(name@.take(k as int).drop_last() =~= name@.take(k - 1));
        k = k - 1;
    }
    proof {
        if k > 0 {
            assert(name@.take(k as int).last() == '.');
        }
        assert(name@.take(0) =~= Seq::<char>::empty());
    }
    // k is one past the last dot, or 0 when there is none
    if k <= 1 {
        None
    } else {
        let mut out: Vec<char> = Vec::new();
        let mut i: usize = k;
        while i < n
            invariant
                k <= i <= n,
                n == name@.len(),
                out@ == name@.subrange(k as int, i as int),
            decreases n - i,
        {
            out.push(name[i]);
            i = i + 1;
            assert(name@.subrange(k as int, i as int) =~= name@.subrange(k as int, (i - 1) as int).push(
                name@[i - 1],
            ));
        }
        assert(name@.subrange(k as int, n as int) =~= name@.skip(k as int));
        Some(out)
    }
}

/// The extension of `path` (`Path::extension`).
pub fn extension(path: &str) -> (r: Option<String>)
    ensures
        match r {
            Some(s) => extension_of(path@) == Some(s@),
            None => extension_of(path@) is None,
        },
{
    match file_name(path) {
        Some(n) => {
            let cs = chars_of(n.as_str());
            match extension_of_name(cs.as_slice()) {
                Some(e) => Some(string_from_chars(e.as_slice())),
                None => None,
            }
        },
        None => None,
    }
}

/// `path` starts at the root (`Path::is_absolute` on Unix).
pub fn is_absolute(path: &str) -> (b: bool)
    ensures
        b == is_absolute_path(path@),
{
    let cs = chars_of(path);
    cs.len() > 0 && cs[0] == '/'
}

/// `tail` appended to `base` as `PathBuf::join` does: an absolute `tail`
/// replaces `base`; otherwise a `/` is put between them unless `base` is
/// empty or already ends with one.
pub open spec fn joined(base: Seq<char>, tail: Seq<char>) -> Seq<char> {
    if is_absolute_path(tail) {
        tail
    } else if base.len() > 0 && base.last() != '/' {
        base.push('/') + tail
    } else {
        base + tail
    }
}

/// `base` joined with `tail` (`Path::join`).
pub fn join(base: &str, tail: &str) -> (r: String)
    ensures
        r@ == joined(base@, tail@),
{
    let b = chars_of(base);
    let t = chars_of(tail);
    if t.len() > 0 && t[0] == '/' {
        return string_from_chars(t.as_slice());
    }
    let mut out = string_from_chars(b.as_slice());
    if b.len() > 0 && b[b.len() - 1] != '/' {
        crate::text::push_char(&mut out, '/');
    }
    push_chars(&mut out, t.as_slice());
    out
}

proof fn lemma_split_no_slash(s: Seq<char>)
    requires
        forall|i: int| 0 <= i < s.len() ==> s[i] != '/',
    ensures
        split_slash(s) == seq![s],
    decreases s.len(),
{
    if s.len() > 0 {
        lemma_split_no_slash(s.drop_last());
        assert(s.drop_last().push(s.last()) =~= s);
        assert(seq![s.drop_last()].update(0, s.drop_last().push(s.last())) =~= seq![s]);
    } else {
        assert(s =~= Seq::<char>::empty());
    }
}

/// A name without `/` that is neither empty, `.` nor `..` is a path of
/// exactly one component, a `Normal` one.
pub proof fn lemma_plain_name_components(s: Seq<char>)
    requires
        s.len() > 0,
        forall|i: int| 0 <= i < s.len() ==> s[i] != '/',
        s != seq!['.'],
        s != seq!['.', '.'],
    ensures
        path_components(s) == seq![ComponentView::Normal(s)],
{
    lemma_split_no_slash(s);
    assert(!is_absolute_path(s));
    let ps = split_slash(s);
    assert(ps.drop_last() =~= Seq::<Seq<char>>::empty());
    assert(ps.len() == 1 && ps.last() == s);
    assert(pieces_components(ps.drop_last(), true) =~= Seq::<ComponentView>::empty());
    assert(pieces_components(ps, true) == pieces_components(ps.drop_last(), true) + piece_component(
        s,
        true,
    ));
    assert(piece_component(s, true) == seq![ComponentView::Normal(s)]);
    assert(pieces_components(ps, true) =~= seq![ComponentView::Normal(s)]);
}
/// A name that a `Normal` component can carry: not empty, neither `.`
/// nor `..`, and without `/`.
pub open spec fn is_plain_name(n: Seq<char>) -> bool {
    &&& n.len() > 0
    &&& n != seq!['.']
    &&& n != seq!['.', '.']
    &&& forall|j: int| 0 <= j < n.len() ==> n[j] != '/'
}

/// Every component is plain when it is `Normal`.
pub open spec fn normals_plain(cs: Seq<ComponentView>) -> bool {
    forall|i: int| 0 <= i < cs.len() ==> (#[trigger] cs[i] matches ComponentView::Normal(n) ==> is_plain_name(n))
}

proof fn lemma_pieces_plain(ps: Seq<Seq<char>>, relative: bool)
    requires
        forall|k: int, j: int| 0 <= k < ps.len() && 0 <= j < ps[k].len() ==> ps[k][j] != '/',
    ensures
        normals_plain(pieces_components(ps, relative)),
    decreases ps.len(),
{
    if ps.len() > 0 {
        let init = ps.drop_last();
        assert forall|k: int, j: int| 0 <= k < init.len() && 0 <= j < init[k].len() implies init[k][j] != '/' by {
            assert(init[k] == ps[k]);
        }
        lemma_pieces_plain(init, relative);
        let a = pieces_components(init, relative);
        let b = piece_component(ps.last(), relative && ps.len() == 1);
        assert(pieces_components(ps, relative) == a + b);
        assert forall|i: int| 0 <= i < (a + b).len() implies (#[trigger] (a + b)[i] matches ComponentView::Normal(n) ==> is_plain_name(n)) by {
            if i < a.len() {
                assert((a + b)[i] == a[i]);
            } else {
                assert((a + b)[i] == b[i - a.len()]);
                assert(ps.last() == ps[ps.len() - 1]);
            }
        }
    }
}

proof fn lemma_normal_names_plain(cs: Seq<ComponentView>)
    requires
        normals_plain(cs),
    ensures
        forall|i: int| 0 <= i < normal_names(cs).len() ==> is_plain_name(#[trigger] normal_names(cs)[i]),
    decreases cs.len(),
{
    if cs.len() > 0 {
        let init = cs.drop_last();
        assert forall|i: int| 0 <= i < init.len() implies (#[trigger] init[i] matches ComponentView::Normal(n) ==> is_plain_name(n)) by {
            assert(init[i] == cs[i]);
        }
        lemma_normal_names_plain(init);
        assert(cs.last() == cs[cs.len() - 1]);
        let prev = normal_names(init);
        match cs.last() {
            ComponentView::Normal(n) => {
                assert(normal_names(cs) == prev.push(n));
                assert(is_plain_name(n));
                assert forall|i: int| 0 <= i < normal_names(cs).len() implies is_plain_name(
                    #[trigger] normal_names(cs)[i],
                ) by {
                    if i < prev.len() {
                        assert(normal_names(cs)[i] == prev[i]);
                    }
                }
            },
            _ => {
                assert(normal_names(cs) == prev);
            },
        }
    }
}

/// The names of the `Normal` components of any path are plain: never
/// empty, `.` or `..`, and never holding `/`.
pub proof fn lemma_path_names_plain(p: Seq<char>)
    ensures
        forall|i: int|
            0 <= i < normal_names(path_components(p)).len() ==> is_plain_name(
                #[trigger] normal_names(path_components(p))[i],
            ),
{
    if is_absolute_path(p) {
        lemma_split_pieces_have_no_slash(p.drop_first());
        lemma_pieces_plain(split_slash(p.drop_first()), false);
        let a = seq![ComponentView::RootDir];
        let b = pieces_components(split_slash(p.drop_first()), false);
        assert forall|i: int| 0 <= i < (a + b).len() implies (#[trigger] (a + b)[i] matches ComponentView::Normal(n) ==> is_plain_name(n)) by {
            if i >= 1 {
                assert((a + b)[i] == b[i - 1]);
            }
        }
    } else {
        lemma_split_pieces_have_no_slash(p);
        lemma_pieces_plain(split_slash(p), true);
    }
    lemma_normal_names_plain(path_components(p));
}

/// Trailing separators never change the `Normal` names of a path.
pub proof fn lemma_trailing_slash_names(s: Seq<char>)
    ensures
        normal_names(path_components(trim_end(s, '/'))) == normal_names(path_components(s)),
    decreases s.len(),
{
    if s.len() > 0 && s.last() == '/' {
        let t = s.drop_last();
        lemma_trailing_slash_names(t);
        if t.len() == 0 {
            assert(s =~= seq!['/']);
            assert(s.drop_first() =~= Seq::<char>::empty());
            let ps = split_slash(Seq::<char>::empty());
            assert(ps.drop_last() =~= Seq::<Seq<char>>::empty());
            assert(ps.last() == Seq::<char>::empty());
            assert(pieces_components(ps.drop_last(), false) == Seq::<ComponentView>::empty());
            assert(pieces_components(ps.drop_last(), true) == Seq::<ComponentView>::empty());
            assert(piece_component(ps.last(), false) == Seq::<ComponentView>::empty());
            assert(piece_component(ps.last(), true) == Seq::<ComponentView>::empty());
            assert(pieces_components(ps, false) =~= Seq::<ComponentView>::empty());
            assert(pieces_components(ps, true) =~= Seq::<ComponentView>::empty());
            let cs = path_components(s);
            assert(cs =~= seq![ComponentView::RootDir]);
            assert(cs.drop_last() =~= Seq::<ComponentView>::empty());
            assert(path_components(t) =~= Seq::<ComponentView>::empty());
        } else if t[0] == '/' {
            assert(s.drop_first().drop_last() =~= t.drop_first());
            assert(s.drop_first().last() == '/');
            let ps = split_slash(t.drop_first());
            assert(split_slash(s.drop_first()) == ps.push(Seq::<char>::empty()));
            assert(ps.push(Seq::<char>::empty()).drop_last() =~= ps);
            assert(pieces_components(split_slash(s.drop_first()), false) =~= pieces_components(ps, false));
            assert(path_components(s) =~= path_components(t));
        } else {
            let ps = split_slash(t);
            assert(split_slash(s) == ps.push(Seq::<char>::empty()));
            assert(ps.push(Seq::<char>::empty()).drop_last() =~= ps);
            assert(pieces_components(split_slash(s), true) =~= pieces_components(ps, true));
            assert(path_components(s) =~= path_components(t));
        }
    }
}
} // verus!
