//! The manifest of file icons: which icon code each extension or file name
//! shows, and which icon each code stands for.
use vstd::prelude::*;

verus! {

/// One icon of the icon set: its name, the extensions it is for, and
/// perhaps whole file names it is for.
pub struct FileIcon {
    pub name: String,
    pub exts: Vec<String>,
    pub file_names: Option<Vec<String>>,
}

/// The icon manifest. Each map is kept as the sequence of its insertions:
/// a later pair replaces an earlier one of the same key, as inserting into
/// a map does.
pub struct Manifest {
    /// Extension or file name, and the code of its icon.
    pub icon_map: Vec<(String, u16)>,
    /// Code, and the name of its icon.
    pub code_map: Vec<(u16, String)>,
}

/// The map that a sequence of insertions leaves.
pub open spec fn icon_log_map(log: Seq<(String, u16)>) -> Map<Seq<char>, u16>
    decreases log.len(),
{
    if log.len() == 0 {
        Map::empty()
    } else {
        icon_log_map(log.drop_last()).insert(log.last().0@, log.last().1)
    }
}

/// The map that a sequence of insertions leaves.
pub open spec fn code_log_map(log: Seq<(u16, String)>) -> Map<u16, Seq<char>>
    decreases log.len(),
{
    if log.len() == 0 {
        Map::empty()
    } else {
        code_log_map(log.drop_last()).insert(log.last().0, log.last().1@)
    }
}

impl Manifest {
    /// Extension or file name to icon code.
    pub open spec fn icons(self) -> Map<Seq<char>, u16> {
        icon_log_map(self.icon_map@)
    }

    /// Icon code to icon name.
    pub open spec fn codes(self) -> Map<u16, Seq<char>> {
        code_log_map(self.code_map@)
    }
}

/// `m` with each of `keys` mapped to `code`, in order.
pub open spec fn insert_all(m: Map<Seq<char>, u16>, keys: Seq<Seq<char>>, code: u16) -> Map<
    Seq<char>,
    u16,
>
    decreases keys.len(),
{
    if keys.len() == 0 {
        m
    } else {
        insert_all(m, keys.drop_last(), code).insert(keys.last(), code)
    }
}

/// The file names of an icon, none when it has none.
pub open spec fn names_of(fi: FileIcon) -> Seq<Seq<char>> {
    match fi.file_names {
        Some(v) => v.deep_view(),
        None => Seq::empty(),
    }
}

/// The code of the icon at position `idx`: the position cut to 16 bits,
/// as `idx as u16` does.
pub open spec fn icon_code(idx: int) -> u16 {
    idx as u16
}

/// Extension or file name to icon code, the icons taken in order, each
/// one's extensions before its file names.
pub open spec fn manifest_icons(icons: Seq<FileIcon>) -> Map<Seq<char>, u16>
    decreases icons.len(),
{
    if icons.len() == 0 {
        Map::empty()
    } else {
        let fi = icons.last();
        let code = icon_code(icons.len() - 1);
        insert_all(
            insert_all(manifest_icons(icons.drop_last()), fi.exts.deep_view(), code),
            names_of(fi),
            code,
        )
    }
}

/// Icon code to icon name, the icons taken in order.
pub open spec fn manifest_codes(icons: Seq<FileIcon>) -> Map<u16, Seq<char>>
    decreases icons.len(),
{
    if icons.len() == 0 {
        Map::empty()
    } else {
        manifest_codes(icons.drop_last()).insert(icon_code(icons.len() - 1), icons.last().name@)
    }
}

fn push_keys(log: &mut Vec<(String, u16)>, keys: &Vec<String>, code: u16)
    ensures
        icon_log_map(final(log)@) == insert_all(icon_log_map(old(log)@), keys.deep_view(), code),
{
    let ghost start = icon_log_map(log@);
    let n: usize = keys.len();
    let mut i: usize = 0;
    assert(keys.deep_view().take(0) =~= Seq::<Seq<char>>::empty());
    while i < n
        invariant
            n == keys@.len(),
            i <= n,
            icon_log_map(log@) == insert_all(start, keys.deep_view().take(i as int), code),
        decreases n - i,
    {
        let ghost before = log@;
        log.push((keys[i].clone(), code));
        assert(log@.drop_last() =~= before);
        assert(keys.deep_view().take(i + 1).drop_last() =~= keys.deep_view().take(i as int));
        assert(keys.deep_view().take(i + 1).last() == keys@[i as int]@);
        i = i + 1;
    }
    assert(keys.deep_view().take(n as int) =~= keys.deep_view());
}

/// The manifest of an icon set: each icon's code is its position; every
/// extension and file name of an icon maps to its code, a later icon
/// taking over a key an earlier one had.
pub fn build_manifest(icons: &Vec<FileIcon>) -> (m: Manifest)
    ensures
        m.icons() == manifest_icons(icons@),
        m.codes() == manifest_codes(icons@),
{
    let mut icon_map: Vec<(String, u16)> = Vec::new();
    let mut code_map: Vec<(u16, String)> = Vec::new();
    let n: usize = icons.len();
    let mut idx: usize = 0;
    assert(icons@.take(0) =~= Seq::<FileIcon>::empty());
    while idx < n
        invariant
            n == icons@.len(),
            idx <= n,
            icon_log_map(icon_map@) == manifest_icons(icons@.take(idx as int)),
            code_log_map(code_map@) == manifest_codes(icons@.take(idx as int)),
        decreases n - idx,
    {
        let file_icon = &icons[idx];
        let code: u16 = idx as u16;
        assert(icons@.take(idx + 1).drop_last() =~= icons@.take(idx as int));
        assert(icons@.take(idx + 1).last() == icons@[idx as int]);
        let ghost before = code_map@;
        code_map.push((code, file_icon.name.clone()));
        assert(code_map@.drop_last() =~= before);
        push_keys(&mut icon_map, &file_icon.exts, code);
        match &file_icon.file_names {
            Some(file_names) => {
                push_keys(&mut icon_map, file_names, code);
            },
            None => {},
        }
        idx = idx + 1;
    }
    assert(icons@.take(n as int) =~= icons@);
    Manifest { icon_map, code_map }
}

/// The icon manifest from the icon set's description once parsed: the
/// manifest of its icons, or an empty one when the description did not
/// parse (`None`).
pub fn get_icon_manifest(parsed: Option<Vec<FileIcon>>) -> (m: Manifest)
    ensures
        match parsed {
            Some(icons) => m.icons() == manifest_icons(icons@) && m.codes() == manifest_codes(
                icons@,
            ),
            None => m.icons() == Map::<Seq<char>, u16>::empty() && m.codes() == Map::<
                u16,
                Seq<char>,
            >::empty(),
        },
{
    match parsed {
        Some(icons) => build_manifest(&icons),
        None => Manifest { icon_map: Vec::new(), code_map: Vec::new() },
    }
}

} // verus!
