//! The cached tree of file metadata: what a scan makes of a directory
//! listing, how an entry is found, and how the tree is patched after a
//! change whose path is known.

use vstd::prelude::*;
use crate::media::{
    browser_supported,
    detect_file_type,
    file_type_of,
    get_modified_time,
    is_browser_supported,
    modified_text,
    FileType,
    Timestamp,
};
use crate::paths::{child_path, child_path_of};
use crate::text::{contains_text, occurs_in, optional_str, optional_text, text_eq};

verus! {

/// One file or directory in the tree.
#[derive(Debug)]
pub struct FileEntry {
    /// The base name.
    pub name: String,
    /// The path relative to the root, with `/` between segments. The root's
    /// own path is empty.
    pub path: String,
    pub is_dir: bool,
    pub file_type: FileType,
    /// The length in bytes, for files only.
    pub size: Option<u64>,
    /// The time of the last modification in RFC 3339, where known.
    pub modified: Option<String>,
    /// The entries of a directory, in listing order. A file has `None`, an
    /// empty directory an empty list.
    pub children: Option<Vec<FileEntry>>,
    /// Whether a browser shows the file without transcoding.
    pub is_browser_supported: bool,
}

/// A `FileEntry` as a value: texts as sequences of characters, children as
/// a sequence of values.
pub struct EntryView {
    pub name: Seq<char>,
    pub path: Seq<char>,
    pub is_dir: bool,
    pub file_type: FileType,
    pub size: Option<u64>,
    pub modified: Option<Seq<char>>,
    pub children: Option<Seq<EntryView>>,
    pub is_browser_supported: bool,
}

/// The value of an entry, children and all.
pub open spec fn view_of_entry(e: FileEntry) -> EntryView
    decreases e,
{
    EntryView {
        name: e.name@,
        path: e.path@,
        is_dir: e.is_dir,
        file_type: e.file_type,
        size: e.size,
        modified: optional_text(e.modified),
        children: match e.children {
            Some(v) => Some(
                Seq::new(
                    v@.len(),
                    |i: int|
                        if 0 <= i < v@.len() {
                            view_of_entry(v@[i])
                        } else {
                            arbitrary()
                        },
                ),
            ),
            None => None,
        },
        is_browser_supported: e.is_browser_supported,
    }
}

impl View for FileEntry {
    type V = EntryView;

    open spec fn view(&self) -> EntryView {
        view_of_entry(*self)
    }
}

/// The views of a list of entries.
pub open spec fn views_of(v: Seq<FileEntry>) -> Seq<EntryView> {
    Seq::new(v.len(), |i: int| v[i]@)
}

/// The view of an entry that may be absent.
pub open spec fn entry_view(e: Option<FileEntry>) -> Option<EntryView> {
    match e {
        Some(x) => Some(x@),
        None => None,
    }
}

/// The children of an entry's view are the views of its children.
pub proof fn lemma_children_view(e: FileEntry)
    ensures
        e.children matches Some(v) ==> e@.children == Some(views_of(v@)),
        e.children is None ==> e@.children is None,
{
    match e.children {
        Some(v) => {
            assert(e@.children->0.len() == v@.len());
            assert forall|i: int| 0 <= i < v@.len() implies e@.children->0[i] == v@[i]@ by {}
            assert(e@.children->0 =~= views_of(v@));
        },
        None => {},
    }
}

impl Clone for FileEntry {
    /// A copy with the same view.
    fn clone(&self) -> (r: Self)
        ensures
            r@ == self@,
        decreases self,
    {
        let children: Option<Vec<FileEntry>> = match &self.children {
            Some(cs) => {
                let mut out: Vec<FileEntry> = Vec::new();
                let mut i: usize = 0;
                while i < cs.len()
                    invariant
                        i <= cs.len(),
                        self.children == Some(*cs),
                        views_of(out@) == views_of(cs@).take(i as int),
                    decreases cs.len() - i,
                {
                    let ghost before = views_of(out@);
                    proof {
                        assert(decreases_to!(self.children => self.children->0));
                        assert(decreases_to!(*cs => cs[i as int]));
                    }
                    let copy = cs[i].clone();
                    out.push(copy);
                    assert(views_of(out@) =~= before.push(copy@));
                    assert(views_of(cs@).take(i + 1) =~= views_of(cs@).take(i as int).push(
                        cs@[i as int]@,
                    ));
                    i = i + 1;
                }
                assert(views_of(cs@).take(cs@.len() as int) =~= views_of(cs@));
                Some(out)
            },
            None => None,
        };
        let modified: Option<String> = match &self.modified {
            Some(m) => Some(m.clone()),
            None => None,
        };
        let r = FileEntry {
            name: self.name.clone(),
            path: self.path.clone(),
            is_dir: self.is_dir,
            file_type: self.file_type,
            size: self.size,
            modified: modified,
            children: children,
            is_browser_supported: self.is_browser_supported,
        };
        proof {
            lemma_children_view(r);
            lemma_children_view(*self);
        }
        r
    }
}

/// The first entry in `node` and below it, parents before children and
/// children in order, whose path is `path`.
pub open spec fn find_view(node: EntryView, path: Seq<char>) -> Option<EntryView>
    decreases node,
{
    if node.path == path {
        Some(node)
    } else {
        match node.children {
            Some(cs) => find_among(cs, path, 0),
            None => None,
        }
    }
}

/// The first entry with the given path in `cs[from..]` and below.
pub open spec fn find_among(cs: Seq<EntryView>, path: Seq<char>, from: int) -> Option<EntryView>
    decreases cs, cs.len() - from,
{
    if 0 <= from < cs.len() {
        match find_view(cs[from], path) {
            Some(n) => Some(n),
            None => find_among(cs, path, from + 1),
        }
    } else {
        None
    }
}

/// What a search for `path` finds in a tree that may be absent.
pub open spec fn find_in_tree(tree: Option<EntryView>, path: Seq<char>) -> Option<EntryView> {
    match tree {
        Some(t) => find_view(t, path),
        None => None,
    }
}

/// The views of a list of entries that are held by reference.
spec fn views_of_refs(v: Seq<&FileEntry>) -> Seq<EntryView> {
    Seq::new(v.len(), |i: int| v[i]@)
}

/// The first entry with the given path in and below the entries of a work
/// stack, the entry on top of the stack, which is its last, coming first.
spec fn find_on_stack(stack: Seq<EntryView>, path: Seq<char>) -> Option<EntryView>
    decreases stack.len(),
{
    if stack.len() == 0 {
        None
    } else {
        match find_view(stack.last(), path) {
            Some(e) => Some(e),
            None => find_on_stack(stack.drop_last(), path),
        }
    }
}

/// The number of entries in and below `node`.
spec fn count_entries(node: EntryView) -> nat
    decreases node,
{
    1 + match node.children {
        Some(cs) => count_among(cs, 0),
        None => 0,
    }
}

/// The number of entries in and below `cs[from..]`.
spec fn count_among(cs: Seq<EntryView>, from: int) -> nat
    decreases cs, cs.len() - from,
{
    if 0 <= from < cs.len() {
        count_entries(cs[from]) + count_among(cs, from + 1)
    } else {
        0
    }
}

/// The number of entries in and below the entries of a work stack.
spec fn count_on_stack(stack: Seq<EntryView>) -> nat
    decreases stack.len(),
{
    if stack.len() == 0 {
        0
    } else {
        count_on_stack(stack.drop_last()) + count_entries(stack.last())
    }
}

/// Searches the tree for the entry with the given path, parents before
/// children and children in order. The search keeps its own work stack,
/// so it does not descend deeper as the tree gets deeper; its cost grows
/// with the number of entries.
pub fn find_entry<'a>(tree: &'a FileEntry, path: &str) -> (r: Option<&'a FileEntry>)
    ensures
        match r {
            Some(e) => find_view(tree@, path@) == Some(e@),
            None => find_view(tree@, path@) is None,
        },
{
    let mut stack: Vec<&'a FileEntry> = Vec::new();
    stack.push(tree);
    proof {
        assert(views_of_refs(stack@).drop_last() =~= Seq::<EntryView>::empty());
        assert(views_of_refs(stack@).last() == tree@);
        assert(find_on_stack(Seq::<EntryView>::empty(), path@) is None);
    }
    while stack.len() > 0
        invariant
            find_view(tree@, path@) == find_on_stack(views_of_refs(stack@), path@),
        decreases count_on_stack(views_of_refs(stack@)),
    {
        let ghost before = views_of_refs(stack@);
        let node: &'a FileEntry = stack[stack.len() - 1];
        let _ = stack.pop();
        assert(views_of_refs(stack@) =~= before.drop_last());
        assert(before.last() == node@);
        if text_eq(node.path.as_str(), path) {
            return Some(node);
        }
        proof {
            lemma_children_view(*node);
        }
        match &node.children {
            Some(cs) => {
                let ghost rest = views_of_refs(stack@);
                let ghost kids = views_of(cs@);
                let mut i: usize = cs.len();
                while i > 0
                    invariant
                        i <= cs.len(),
                        kids == views_of(cs@),
                        find_on_stack(views_of_refs(stack@), path@) == match find_among(
                            kids,
                            path@,
                            i as int,
                        ) {
                            Some(e) => Some(e),
                            None => find_on_stack(rest, path@),
                        },
                        count_on_stack(views_of_refs(stack@)) == count_on_stack(rest) + count_among(
                            kids,
                            i as int,
                        ),
                    decreases i,
                {
                    i = i - 1;
                    let ghost under = views_of_refs(stack@);
                    stack.push(&cs[i]);
                    assert(views_of_refs(stack@).drop_last() =~= under);
                    assert(views_of_refs(stack@).last() == kids[i as int]);
                }
            },
            None => {},
        }
    }
    None
}

/// What the filesystem says of one entry besides its name.
#[derive(Debug, Clone, Copy)]
pub struct DiskMeta {
    pub is_dir: bool,
    /// The length in bytes.
    pub len: u64,
    /// The time of the last modification, where the platform gives one.
    pub modified: Option<Timestamp>,
}

/// One entry of a directory as it was read from disk, before any rule of
/// the tree is applied to it.
#[derive(Debug)]
pub struct DiskEntry {
    /// The base name; `None` where it is not valid text.
    pub name: Option<String>,
    /// `None` where the entry could not be examined.
    pub meta: Option<DiskMeta>,
    /// The entries of a directory in the order the filesystem lists them;
    /// empty for a file and for a directory that could not be read.
    pub children: Vec<DiskEntry>,
}

/// The names that have no place in the tree: the marker file that keeps an
/// empty directory under version control, and the decorations that a
/// download leaves beside a file.
pub open spec fn is_artifact_name(name: Seq<char>) -> bool {
    occurs_in(name, "Zone.Identifier"@) || name == ".gitkeep"@
}

/// Whether an entry of this name is left out of the tree.
pub fn is_artifact(name: &str) -> (r: bool)
    ensures
        r == is_artifact_name(name@),
{
    contains_text(name, "Zone.Identifier") || text_eq(name, ".gitkeep")
}

/// The path of a scanned entry: empty for the root, which has no parent,
/// else the parent's path joined with the name.
pub open spec fn scanned_path(parent: Option<Seq<char>>, name: Seq<char>) -> Seq<char> {
    match parent {
        Some(p) => child_path_of(p, name),
        None => Seq::empty(),
    }
}

/// The name under which an entry stands in the tree: its name, or nothing
/// where that is no text.
pub open spec fn name_text(d: DiskEntry) -> Seq<char> {
    match d.name {
        Some(n) => n@,
        None => Seq::empty(),
    }
}

/// What stands for the metadata of a root that could not be examined: a
/// directory of which nothing is known.
pub open spec fn unread_directory() -> DiskMeta {
    DiskMeta { is_dir: true, len: 0, modified: None }
}

/// The metadata by which an entry is built.
pub open spec fn meta_of(d: DiskEntry) -> DiskMeta {
    match d.meta {
        Some(m) => m,
        None => unread_directory(),
    }
}

/// Whether a scan keeps `d`. The root, which has no parent, is always
/// kept: every tree is rooted there. An entry of a directory is kept if
/// its name is text and no artifact and if it could be examined.
pub open spec fn is_kept(d: DiskEntry, parent: Option<Seq<char>>) -> bool {
    parent is None || (d.name is Some && d.meta is Some && !is_artifact_name(name_text(d)))
}

/// What a scan makes of `d`, found in the directory at `parent`: nothing
/// if it is not kept; else an entry with its metadata and, for a
/// directory, with what the scan makes of its entries, in their order.
/// The scan goes `depth` directories down from `d`: a directory below that
/// is kept, its entries are not. A root that could not be examined is an
/// empty directory: the tree is empty, and it is there.
pub open spec fn scan_view(d: DiskEntry, parent: Option<Seq<char>>, depth: nat) -> Option<EntryView>
    decreases d, 1nat, 0nat,
{
    if !is_kept(d, parent) {
        None
    } else {
        let name = name_text(d);
        let meta = meta_of(d);
        let path = scanned_path(parent, name);
        Some(
            EntryView {
                name: name,
                path: path,
                is_dir: meta.is_dir,
                file_type: file_type_of(name, meta.is_dir),
                size: if meta.is_dir {
                    None
                } else {
                    Some(meta.len)
                },
                modified: modified_text(meta.modified),
                children: if meta.is_dir {
                    Some(
                        if depth > 0 && d.meta is Some {
                            scan_children(d, path, d.children@.len() as int, (depth - 1) as nat)
                        } else {
                            Seq::empty()
                        },
                    )
                } else {
                    None
                },
                is_browser_supported: browser_supported(name),
            },
        )
    }
}

/// What a scan makes of the first `upto` entries of the directory `d`,
/// whose path is `path`: the entries that it keeps, in listing order, each
/// scanned `depth` directories down.
pub open spec fn scan_children(d: DiskEntry, path: Seq<char>, upto: int, depth: nat) -> Seq<
    EntryView,
>
    decreases d, 0nat, upto,
{
    if upto <= 0 || upto > d.children@.len() {
        Seq::empty()
    } else {
        let before = scan_children(d, path, upto - 1, depth);
        match scan_view(d.children@[upto - 1], Some(path), depth) {
            Some(e) => before.push(e),
            None => before,
        }
    }
}

fn scan_at(d: &DiskEntry, parent: Option<&str>, depth: usize) -> (r: Option<FileEntry>)
    ensures
        entry_view(r) == scan_view(*d, optional_str(parent), depth as nat),
    decreases d,
{
    let name: String = match &d.name {
        Some(n) => n.clone(),
        None => {
            if parent.is_some() {
                return None;
            }
            String::new()
        },
    };
    let meta: DiskMeta = match d.meta {
        Some(m) => m,
        None => {
            if parent.is_some() {
                return None;
            }
            DiskMeta { is_dir: true, len: 0, modified: None }
        },
    };
    if parent.is_some() && is_artifact(name.as_str()) {
        return None;
    }
    let path: String = match parent {
        Some(p) => child_path(p, name.as_str()),
        None => String::new(),
    };
    let file_type = detect_file_type(name.as_str(), meta.is_dir);
    let supported = is_browser_supported(name.as_str());
    let modified = get_modified_time(meta.modified);
    let children: Option<Vec<FileEntry>> = if meta.is_dir {
        let mut kept: Vec<FileEntry> = Vec::new();
        assert(views_of(kept@) =~= Seq::<EntryView>::empty());
        if depth > 0 && d.meta.is_some() {
            let mut i: usize = 0;
            while i < d.children.len()
                invariant
                    i <= d.children.len(),
                    depth > 0,
                    views_of(kept@) == scan_children(*d, path@, i as int, (depth - 1) as nat),
                decreases d.children.len() - i,
            {
                let ghost before = views_of(kept@);
                proof {
                    assert(decreases_to!(d.children => d.children[i as int]));
                }
                match scan_at(&d.children[i], Some(path.as_str()), depth - 1) {
                    Some(child) => {
                        kept.push(child);
                        assert(views_of(kept@) =~= before.push(child@));
                    },
                    None => {},
                }
                i = i + 1;
            }
        }
        Some(kept)
    } else {
        None
    };
    let entry = FileEntry {
        name: name,
        path: path,
        is_dir: meta.is_dir,
        file_type: file_type,
        size: if meta.is_dir {
            None
        } else {
            Some(meta.len)
        },
        modified: modified,
        children: children,
        is_browser_supported: supported,
    };
    proof {
        lemma_children_view(entry);
    }
    Some(entry)
}

/// Builds the tree for a directory as it was read from disk, `root` being
/// the directory itself, down to `max_depth` directories below it. An
/// entry that could not be read is left out. The root is always there: one
/// that could not be read gives the empty tree, a directory at the empty
/// path without entries.
pub fn scan_dir(root: &DiskEntry, max_depth: usize) -> (r: Option<FileEntry>)
    ensures
        r is Some,
        entry_view(r) == scan_view(*root, None, max_depth as nat),
        root.meta is None ==> r->0@.is_dir && r->0@.path.len() == 0 && r->0@.children == Some(
            Seq::<EntryView>::empty(),
        ),
{
    scan_at(root, None, max_depth)
}

/// Whether `node` is the file that a replacement at `path` is about.
pub open spec fn is_replaced(node: EntryView, path: Seq<char>) -> bool {
    node.path == path && !node.is_dir
}

/// The tree with new metadata on the files whose path is `path`: their
/// size and modification time are replaced, everything else stays.
pub open spec fn with_metadata(
    node: EntryView,
    path: Seq<char>,
    size: Option<u64>,
    modified: Option<Seq<char>>,
) -> EntryView
    decreases node,
{
    EntryView {
        name: node.name,
        path: node.path,
        is_dir: node.is_dir,
        file_type: node.file_type,
        size: if is_replaced(node, path) {
            size
        } else {
            node.size
        },
        modified: if is_replaced(node, path) {
            modified
        } else {
            node.modified
        },
        children: match node.children {
            Some(cs) => Some(
                Seq::new(
                    cs.len(),
                    |i: int|
                        if 0 <= i < cs.len() {
                            with_metadata(cs[i], path, size, modified)
                        } else {
                            arbitrary()
                        },
                ),
            ),
            None => None,
        },
        is_browser_supported: node.is_browser_supported,
    }
}

/// `with_metadata` on each entry of a list.
spec fn each_with_metadata(
    cs: Seq<EntryView>,
    path: Seq<char>,
    size: Option<u64>,
    modified: Option<Seq<char>>,
) -> Seq<EntryView> {
    Seq::new(cs.len(), |i: int| with_metadata(cs[i], path, size, modified))
}

proof fn lemma_with_metadata_children(
    node: EntryView,
    path: Seq<char>,
    size: Option<u64>,
    modified: Option<Seq<char>>,
)
    ensures
        node.children matches Some(cs) ==> with_metadata(node, path, size, modified).children
            == Some(each_with_metadata(cs, path, size, modified)),
        node.children is None ==> with_metadata(node, path, size, modified).children is None,
{
    match node.children {
        Some(cs) => {
            assert(with_metadata(node, path, size, modified).children->0 =~= each_with_metadata(
                cs,
                path,
                size,
                modified,
            ));
        },
        None => {},
    }
}

fn copy_text(t: &Option<String>) -> (r: Option<String>)
    ensures
        optional_text(r) == optional_text(*t),
{
    match t {
        Some(s) => Some(s.clone()),
        None => None,
    }
}

/// Puts a new size and modification time on the file at `path`, as after
/// it was replaced. A tree without such a file stays as it is.
pub fn update_metadata(
    tree: FileEntry,
    path: &str,
    size: Option<u64>,
    modified: &Option<String>,
) -> (r: FileEntry)
    ensures
        r@ == with_metadata(tree@, path@, size, optional_text(*modified)),
    decreases tree,
{
    let FileEntry {
        name,
        path: own_path,
        is_dir,
        file_type,
        size: old_size,
        modified: old_modified,
        children,
        is_browser_supported,
    } = tree;
    let hit = !is_dir && text_eq(own_path.as_str(), path);
    let kids: Option<Vec<FileEntry>> = match children {
        Some(cs) => {
            let ghost all = cs@;
            let mut out: Vec<FileEntry> = Vec::new();
            for child in it: cs
                invariant
                    it.seq() == all,
                    tree.children == Some(cs),
                    views_of(out@) == each_with_metadata(
                        views_of(all),
                        path@,
                        size,
                        optional_text(*modified),
                    ).take(it.index()),
            {
                let ghost before = views_of(out@);
                proof {
                    assert(decreases_to!(tree.children => tree.children->0));
                    assert(decreases_to!(cs => cs[it.index()]));
                }
                let patched = update_metadata(child, path, size, modified);
                out.push(patched);
                assert(views_of(out@) =~= before.push(patched@));
                assert(each_with_metadata(views_of(all), path@, size, optional_text(*modified)).take(
                    it.index() + 1,
                ) =~= each_with_metadata(views_of(all), path@, size, optional_text(*modified)).take(
                    it.index(),
                ).push(with_metadata(all[it.index()]@, path@, size, optional_text(*modified))));
            }
            assert(each_with_metadata(views_of(all), path@, size, optional_text(*modified)).take(
                all.len() as int,
            ) =~= each_with_metadata(views_of(all), path@, size, optional_text(*modified)));
            Some(out)
        },
        None => None,
    };
    let r = FileEntry {
        name: name,
        path: own_path,
        is_dir: is_dir,
        file_type: file_type,
        size: if hit {
            size
        } else {
            old_size
        },
        modified: if hit {
            copy_text(modified)
        } else {
            old_modified
        },
        children: kids,
        is_browser_supported: is_browser_supported,
    };
    proof {
        lemma_children_view(r);
        lemma_children_view(tree);
        lemma_with_metadata_children(tree@, path@, size, optional_text(*modified));
    }
    r
}

/// The tree without the entries below `node` whose path is `path`, and
/// without all that they hold. The node itself stays.
pub open spec fn without_path(node: EntryView, path: Seq<char>) -> EntryView
    decreases node, 1nat, 0nat,
{
    EntryView {
        name: node.name,
        path: node.path,
        is_dir: node.is_dir,
        file_type: node.file_type,
        size: node.size,
        modified: node.modified,
        children: match node.children {
            Some(cs) => Some(kept_children(node, path, cs.len() as int)),
            None => None,
        },
        is_browser_supported: node.is_browser_supported,
    }
}

/// The first `upto` children of `node`, without those whose path is
/// `path`, each taken `without_path`.
pub open spec fn kept_children(node: EntryView, path: Seq<char>, upto: int) -> Seq<EntryView>
    decreases node, 0nat, upto,
{
    match node.children {
        Some(cs) => if upto <= 0 || upto > cs.len() {
            Seq::empty()
        } else {
            let before = kept_children(node, path, upto - 1);
            if cs[upto - 1].path == path {
                before
            } else {
                before.push(without_path(cs[upto - 1], path))
            }
        },
        None => Seq::empty(),
    }
}

/// Takes the entry at `path` out of its parent's list, as after its file
/// was deleted. The root cannot be taken out, and a tree without such an
/// entry stays as it is.
pub fn remove_entry(tree: FileEntry, path: &str) -> (r: FileEntry)
    ensures
        r@ == without_path(tree@, path@),
    decreases tree,
{
    proof {
        lemma_children_view(tree);
    }
    let FileEntry {
        name,
        path: own_path,
        is_dir,
        file_type,
        size,
        modified,
        children,
        is_browser_supported,
    } = tree;
    let kids: Option<Vec<FileEntry>> = match children {
        Some(cs) => {
            let ghost all = cs@;
            let mut out: Vec<FileEntry> = Vec::new();
            for child in it: cs
                invariant
                    it.seq() == all,
                    tree.children == Some(cs),
                    tree@.children == Some(views_of(all)),
                    views_of(out@) == kept_children(tree@, path@, it.index()),
            {
                let ghost before = views_of(out@);
                proof {
                    assert(decreases_to!(tree.children => tree.children->0));
                    assert(decreases_to!(cs => cs[it.index()]));
                    assert(views_of(all)[it.index()] == child@);
                }
                if !text_eq(child.path.as_str(), path) {
                    let pruned = remove_entry(child, path);
                    out.push(pruned);
                    assert(views_of(out@) =~= before.push(pruned@));
                }
            }
            Some(out)
        },
        None => None,
    };
    let r = FileEntry {
        name: name,
        path: own_path,
        is_dir: is_dir,
        file_type: file_type,
        size: size,
        modified: modified,
        children: kids,
        is_browser_supported: is_browser_supported,
    };
    proof {
        lemma_children_view(r);
    }
    r
}

/// Where none of `cs[from..]` holds an entry at `path`, the search among
/// them finds none.
pub proof fn lemma_find_among_none(cs: Seq<EntryView>, path: Seq<char>, from: int)
    requires
        0 <= from,
        forall|i: int| from <= i < cs.len() ==> find_view(#[trigger] cs[i], path) is None,
    ensures
        find_among(cs, path, from) is None,
    decreases cs.len() - from,
{
    if from < cs.len() {
        assert(find_view(cs[from], path) is None);
        lemma_find_among_none(cs, path, from + 1);
    }
}

/// Once the entry at `path` is taken out, no entry is found at `path`,
/// unless it is the root, which stays.
pub proof fn lemma_removed_is_gone(node: EntryView, path: Seq<char>)
    requires
        node.path != path,
    ensures
        find_view(without_path(node, path), path) is None,
    decreases node, 1nat, 0nat,
{
    match node.children {
        Some(cs) => {
            lemma_kept_are_clean(node, path, cs.len() as int);
            lemma_find_among_none(kept_children(node, path, cs.len() as int), path, 0);
        },
        None => {},
    }
}

proof fn lemma_kept_are_clean(node: EntryView, path: Seq<char>, upto: int)
    ensures
        forall|i: int|
            0 <= i < kept_children(node, path, upto).len() ==> find_view(
                #[trigger] kept_children(node, path, upto)[i],
                path,
            ) is None,
    decreases node, 0nat, upto,
{
    match node.children {
        Some(cs) => {
            if 0 < upto <= cs.len() {
                lemma_kept_are_clean(node, path, upto - 1);
                if cs[upto - 1].path != path {
                    lemma_removed_is_gone(cs[upto - 1], path);
                }
            }
        },
        None => {},
    }
}

/// A search in the patched tree finds what the search in the tree found,
/// patched: no entry appears, leaves or moves when metadata is updated.
pub proof fn lemma_find_after_update(
    node: EntryView,
    path: Seq<char>,
    size: Option<u64>,
    modified: Option<Seq<char>>,
    wanted: Seq<char>,
)
    ensures
        find_view(with_metadata(node, path, size, modified), wanted) == match find_view(
            node,
            wanted,
        ) {
            Some(e) => Some(with_metadata(e, path, size, modified)),
            None => None,
        },
    decreases node, 1nat, 0nat,
{
    lemma_with_metadata_children(node, path, size, modified);
    match node.children {
        Some(cs) => {
            if node.path != wanted {
                lemma_find_among_after_update(node, path, size, modified, wanted, 0);
            }
        },
        None => {},
    }
}

proof fn lemma_find_among_after_update(
    node: EntryView,
    path: Seq<char>,
    size: Option<u64>,
    modified: Option<Seq<char>>,
    wanted: Seq<char>,
    from: int,
)
    requires
        node.children is Some,
        0 <= from,
    ensures
        find_among(each_with_metadata(node.children->0, path, size, modified), wanted, from)
            == match find_among(node.children->0, wanted, from) {
            Some(e) => Some(with_metadata(e, path, size, modified)),
            None => None,
        },
    decreases node, 0nat, node.children->0.len() - from,
{
    let cs = node.children->0;
    if from < cs.len() {
        lemma_find_after_update(cs[from], path, size, modified, wanted);
        lemma_find_among_after_update(node, path, size, modified, wanted, from + 1);
    }
}

/// After an update the file at `path`, if the tree holds one there, has
/// the new size and modification time.
pub proof fn lemma_update_reaches_entry(
    node: EntryView,
    path: Seq<char>,
    size: Option<u64>,
    modified: Option<Seq<char>>,
)
    requires
        find_view(node, path) matches Some(e) && !e.is_dir,
    ensures
        find_view(with_metadata(node, path, size, modified), path) matches Some(e) && e.size == size
            && e.modified == modified && e.path == path,
    decreases node,
{
    lemma_find_after_update(node, path, size, modified, path);
    lemma_found_has_path(node, path);
}

/// What a search finds has the path that was searched for.
pub proof fn lemma_found_has_path(node: EntryView, path: Seq<char>)
    ensures
        find_view(node, path) matches Some(e) ==> e.path == path,
    decreases node, 1nat, 0nat,
{
    if node.path != path {
        match node.children {
            Some(cs) => {
                lemma_found_among_has_path(node, path, 0);
            },
            None => {},
        }
    }
}

proof fn lemma_found_among_has_path(node: EntryView, path: Seq<char>, from: int)
    requires
        node.children is Some,
        0 <= from,
    ensures
        find_among(node.children->0, path, from) matches Some(e) ==> e.path == path,
    decreases node, 0nat, node.children->0.len() - from,
{
    let cs = node.children->0;
    if from < cs.len() {
        lemma_found_has_path(cs[from], path);
        lemma_found_among_has_path(node, path, from + 1);
    }
}

/// Whether the tree below `node` has the shape of a directory tree: a
/// directory has a list of entries and no size, a file has no list, and the
/// path of each entry is the path of the directory that holds it joined
/// with the entry's name.
pub open spec fn consistent(node: EntryView) -> bool
    decreases node,
{
    &&& node.is_dir == (node.children is Some)
    &&& node.is_dir ==> node.size is None
    &&& match node.children {
        Some(cs) => forall|i: int|
            0 <= i < cs.len() ==> (#[trigger] cs[i]).path == child_path_of(node.path, cs[i].name)
                && consistent(cs[i]),
        None => true,
    }
}

/// A consistent tree stays consistent when metadata is updated.
pub proof fn lemma_update_keeps_consistent(
    node: EntryView,
    path: Seq<char>,
    size: Option<u64>,
    modified: Option<Seq<char>>,
)
    requires
        consistent(node),
    ensures
        consistent(with_metadata(node, path, size, modified)),
    decreases node,
{
    lemma_with_metadata_children(node, path, size, modified);
    match node.children {
        Some(cs) => {
            let patched = each_with_metadata(cs, path, size, modified);
            assert forall|i: int| 0 <= i < patched.len() implies (#[trigger] patched[i]).path
                == child_path_of(node.path, patched[i].name) && consistent(patched[i]) by {
                assert(cs[i].path == child_path_of(node.path, cs[i].name));
                lemma_update_keeps_consistent(cs[i], path, size, modified);
            }
        },
        None => {},
    }
}

/// A consistent tree stays consistent when an entry is taken out.
pub proof fn lemma_remove_keeps_consistent(node: EntryView, path: Seq<char>)
    requires
        consistent(node),
    ensures
        consistent(without_path(node, path)),
    decreases node, 1nat, 0nat,
{
    match node.children {
        Some(cs) => {
            lemma_kept_are_consistent(node, path, cs.len() as int);
        },
        None => {},
    }
}

proof fn lemma_kept_are_consistent(node: EntryView, path: Seq<char>, upto: int)
    requires
        consistent(node),
    ensures
        forall|i: int|
            0 <= i < kept_children(node, path, upto).len() ==> (#[trigger] kept_children(
                node,
                path,
                upto,
            )[i]).path == child_path_of(node.path, kept_children(node, path, upto)[i].name)
                && consistent(kept_children(node, path, upto)[i]),
    decreases node, 0nat, upto,
{
    match node.children {
        Some(cs) => {
            if 0 < upto <= cs.len() {
                lemma_kept_are_consistent(node, path, upto - 1);
                let before = kept_children(node, path, upto - 1);
                let all = kept_children(node, path, upto);
                let last = cs[upto - 1];
                assert(last.path == child_path_of(node.path, last.name));
                if last.path != path {
                    lemma_remove_keeps_consistent(last, path);
                    assert forall|i: int| 0 <= i < all.len() implies (#[trigger] all[i]).path
                        == child_path_of(node.path, all[i].name) && consistent(all[i]) by {
                        if i < before.len() {
                            assert(all[i] == before[i]);
                        }
                    }
                }
            }
        },
        None => {},
    }
}

/// What a scan builds is consistent, and its root has the empty path.
pub proof fn lemma_scan_is_consistent(d: DiskEntry, parent: Option<Seq<char>>, depth: nat)
    ensures
        scan_view(d, parent, depth) matches Some(e) ==> consistent(e) && e.path == scanned_path(
            parent,
            e.name,
        ) && (parent is None ==> e.path.len() == 0),
    decreases d, 1nat, 0nat,
{
    match scan_view(d, parent, depth) {
        Some(e) => {
            if e.is_dir && depth > 0 {
                lemma_scanned_children_are_consistent(
                    d,
                    e.path,
                    d.children@.len() as int,
                    (depth - 1) as nat,
                );
            }
        },
        None => {},
    }
}

proof fn lemma_scanned_children_are_consistent(d: DiskEntry, path: Seq<char>, upto: int, depth: nat)
    ensures
        forall|i: int|
            0 <= i < scan_children(d, path, upto, depth).len() ==> (#[trigger] scan_children(
                d,
                path,
                upto,
                depth,
            )[i]).path == child_path_of(path, scan_children(d, path, upto, depth)[i].name)
                && consistent(scan_children(d, path, upto, depth)[i]),
    decreases d, 0nat, upto,
{
    if 0 < upto <= d.children@.len() {
        lemma_scanned_children_are_consistent(d, path, upto - 1, depth);
        lemma_scan_is_consistent(d.children@[upto - 1], Some(path), depth);
    }
}

/// Whether the names of the entries of a directory, as listed, differ
/// from each other as far as they are text.
pub open spec fn listed_names_differ(d: DiskEntry) -> bool {
    forall|i: int, j: int|
        0 <= i < j < d.children@.len() && (#[trigger] d.children@[i]).name is Some && (
        #[trigger] d.children@[j]).name is Some ==> d.children@[i].name->0@
            != d.children@[j].name->0@
}

/// Whether the entries of a list have paths that differ from each other.
pub open spec fn paths_differ(cs: Seq<EntryView>) -> bool {
    forall|i: int, j: int|
        0 <= i < j < cs.len() ==> (#[trigger] cs[i]).path != (#[trigger] cs[j]).path
}

/// Two entries of one directory have the same path only if they have the
/// same name.
pub proof fn lemma_child_path_tells_names_apart(parent: Seq<char>, a: Seq<char>, b: Seq<char>)
    requires
        child_path_of(parent, a) == child_path_of(parent, b),
    ensures
        a == b,
{
    if parent.len() > 0 {
        let head = parent + seq!['/'];
        assert(a =~= (head + a).subrange(head.len() as int, (head + a).len() as int));
        assert(b =~= (head + b).subrange(head.len() as int, (head + b).len() as int));
    }
}

/// In a directory whose listed names differ, the entries that a scan
/// keeps have paths that differ: a path names one entry among its
/// siblings.
pub proof fn lemma_scanned_siblings_differ(d: DiskEntry, parent: Option<Seq<char>>, depth: nat)
    requires
        listed_names_differ(d),
    ensures
        scan_view(d, parent, depth) matches Some(e) ==> (e.children matches Some(cs)
            ==> paths_differ(cs)),
{
    match scan_view(d, parent, depth) {
        Some(e) => {
            if e.is_dir && depth > 0 {
                lemma_kept_siblings_differ(
                    d,
                    e.path,
                    d.children@.len() as int,
                    (depth - 1) as nat,
                );
            }
        },
        None => {},
    }
}

proof fn lemma_kept_siblings_differ(d: DiskEntry, path: Seq<char>, upto: int, depth: nat)
    requires
        listed_names_differ(d),
    ensures
        paths_differ(scan_children(d, path, upto, depth)),
        forall|i: int|
            0 <= i < scan_children(d, path, upto, depth).len() ==> exists|k: int|
                0 <= k < upto && k < d.children@.len() && (#[trigger] d.children@[k]).name is Some
                    && (#[trigger] scan_children(d, path, upto, depth)[i]).path == child_path_of(
                    path,
                    d.children@[k].name->0@,
                ),
    decreases upto,
{
    if 0 < upto <= d.children@.len() {
        lemma_kept_siblings_differ(d, path, upto - 1, depth);
        let before = scan_children(d, path, upto - 1, depth);
        let all = scan_children(d, path, upto, depth);
        let last = d.children@[upto - 1];
        match scan_view(last, Some(path), depth) {
            Some(e) => {
                assert(e.path == child_path_of(path, last.name->0@));
                assert forall|i: int| 0 <= i < all.len() implies exists|k: int|
                    0 <= k < upto && k < d.children@.len() && (#[trigger] d.children@[k]).name is Some
                        && (#[trigger] all[i]).path == child_path_of(
                        path,
                        d.children@[k].name->0@,
                    ) by {
                    if i < before.len() {
                        assert(all[i] == before[i]);
                        let k = choose|k: int|
                            0 <= k < upto - 1 && k < d.children@.len() && (
                            #[trigger] d.children@[k]).name is Some && before[i].path
                                == child_path_of(path, d.children@[k].name->0@);
                        assert(d.children@[k].name is Some);
                    } else {
                        assert(all[i] == e);
                        assert(d.children@[upto - 1].name is Some);
                    }
                }
                assert forall|i: int, j: int| 0 <= i < j < all.len() implies (#[trigger] all[i]).path
                    != (#[trigger] all[j]).path by {
                    assert(all[i] == before[i]);
                    if j < before.len() {
                        assert(all[j] == before[j]);
                    } else {
                        let k = choose|k: int|
                            0 <= k < upto - 1 && k < d.children@.len() && (
                            #[trigger] d.children@[k]).name is Some && before[i].path
                                == child_path_of(path, d.children@[k].name->0@);
                        if all[i].path == e.path {
                            lemma_child_path_tells_names_apart(
                                path,
                                d.children@[k].name->0@,
                                last.name->0@,
                            );
                            assert(d.children@[k].name->0@ != d.children@[upto - 1].name->0@);
                        }
                    }
                }
            },
            None => {},
        }
    }
}

/// The depth of the tree below `node`: 0 for a file and for a directory
/// without entries.
pub open spec fn depth_of(node: EntryView) -> nat
    decreases node,
{
    match node.children {
        Some(cs) => deepest_among(cs, 0),
        None => 0,
    }
}

/// One more than the depth of the deepest of `cs[from..]`; 0 if there is
/// none.
pub open spec fn deepest_among(cs: Seq<EntryView>, from: int) -> nat
    decreases cs, cs.len() - from,
{
    if 0 <= from < cs.len() {
        let here = depth_of(cs[from]) + 1;
        let rest = deepest_among(cs, from + 1);
        if here >= rest {
            here
        } else {
            rest
        }
    } else {
        0
    }
}

/// A scan that goes `depth` directories down builds a tree of at most
/// that depth, however deep the listing is.
pub proof fn lemma_scan_depth_is_bounded(d: DiskEntry, parent: Option<Seq<char>>, depth: nat)
    ensures
        scan_view(d, parent, depth) matches Some(e) ==> depth_of(e) <= depth,
    decreases d, 1nat, 0nat,
{
    match scan_view(d, parent, depth) {
        Some(e) => {
            if e.is_dir && depth > 0 {
                let cs = scan_children(d, e.path, d.children@.len() as int, (depth - 1) as nat);
                lemma_scanned_children_are_shallow(
                    d,
                    e.path,
                    d.children@.len() as int,
                    (depth - 1) as nat,
                );
                lemma_deepest_is_bounded(cs, 0, depth);
            }
        },
        None => {},
    }
}

proof fn lemma_scanned_children_are_shallow(d: DiskEntry, path: Seq<char>, upto: int, depth: nat)
    ensures
        forall|i: int|
            0 <= i < scan_children(d, path, upto, depth).len() ==> depth_of(
                #[trigger] scan_children(d, path, upto, depth)[i],
            ) <= depth,
    decreases d, 0nat, upto,
{
    if 0 < upto <= d.children@.len() {
        lemma_scanned_children_are_shallow(d, path, upto - 1, depth);
        lemma_scan_depth_is_bounded(d.children@[upto - 1], Some(path), depth);
        let before = scan_children(d, path, upto - 1, depth);
        let all = scan_children(d, path, upto, depth);
        assert forall|i: int| 0 <= i < all.len() implies depth_of(#[trigger] all[i]) <= depth by {
            if i < before.len() {
                assert(all[i] == before[i]);
            }
        }
    }
}

proof fn lemma_deepest_is_bounded(cs: Seq<EntryView>, from: int, bound: nat)
    requires
        0 <= from,
        forall|i: int| from <= i < cs.len() ==> depth_of(#[trigger] cs[i]) + 1 <= bound,
    ensures
        deepest_among(cs, from) <= bound,
    decreases cs.len() - from,
{
    if from < cs.len() {
        assert(depth_of(cs[from]) + 1 <= bound);
        lemma_deepest_is_bounded(cs, from + 1, bound);
    }
}

} // verus!
