//! The decisions behind each request: what is refused, with which status
//! and reason, and what is to be done on disk otherwise.
//!
//! A decision reads the request, the tree and what the filesystem said of
//! the target. It touches nothing itself: the caller holds the lock of the
//! path, does what the decision names, and patches the tree afterwards.

use vstd::prelude::*;
use crate::error::{AppError, ErrorKind, ErrorView};
use crate::paths::{extension, extension_of, trim_separators, trim_slashes};
use crate::sandbox::{
    lemma_resolved_within,
    refusal_reason,
    resolve_probe,
    safe_path,
    within,
    PathProbe,
};
use crate::text::{lowercase, lowercase_of, optional_str, optional_text, text_eq};
use crate::tree::{find_entry, find_in_tree, EntryView, FileEntry};

verus! {

/// The body of a request to delete a file.
#[derive(Debug)]
pub struct DeleteRequest {
    pub path: String,
}

/// The body of a request to create a folder.
#[derive(Debug)]
pub struct CreateFolderRequest {
    pub path: String,
}

/// What a part of a multipart form is taken for.
#[derive(Debug, Clone, Copy, PartialEq, Eq, Structural)]
pub enum FieldRole {
    /// The directory to upload into, as text.
    TargetPath,
    /// The path of the file to replace, as text.
    ReplacePath,
    /// The file itself.
    File,
    /// Not read.
    Ignored,
}

/// The role of a part of an upload form: `target_path` names the
/// directory, and the part called `file` is the file if it carries a file
/// name.
pub open spec fn upload_role(name: Option<Seq<char>>, has_file_name: bool) -> FieldRole {
    match name {
        Some(n) => if n == "target_path"@ {
            FieldRole::TargetPath
        } else if n == "file"@ && has_file_name {
            FieldRole::File
        } else {
            FieldRole::Ignored
        },
        None => FieldRole::Ignored,
    }
}

/// Tells what a part of an upload form is.
pub fn upload_field_role(name: Option<&str>, has_file_name: bool) -> (r: FieldRole)
    ensures
        r == upload_role(optional_str(name), has_file_name),
{
    match name {
        Some(n) => {
            if text_eq(n, "target_path") {
                FieldRole::TargetPath
            } else if has_file_name && text_eq(n, "file") {
                FieldRole::File
            } else {
                FieldRole::Ignored
            }
        },
        None => FieldRole::Ignored,
    }
}

/// The role of a part of a replace form: `replace_path` names the file to
/// replace, and any other part that carries a file name is the file.
pub open spec fn update_role(name: Option<Seq<char>>, has_file_name: bool) -> FieldRole {
    if name == Some("replace_path"@) {
        FieldRole::ReplacePath
    } else if has_file_name {
        FieldRole::File
    } else {
        FieldRole::Ignored
    }
}

/// Tells what a part of a replace form is.
pub fn update_field_role(name: Option<&str>, has_file_name: bool) -> (r: FieldRole)
    ensures
        r == update_role(optional_str(name), has_file_name),
{
    let is_path = match name {
        Some(n) => text_eq(n, "replace_path"),
        None => false,
    };
    if is_path {
        FieldRole::ReplacePath
    } else if has_file_name {
        FieldRole::File
    } else {
        FieldRole::Ignored
    }
}

/// A decision as a value: the path to act on, or the refusal.
pub open spec fn outcome(r: Result<String, AppError>) -> Result<Seq<char>, ErrorView> {
    match r {
        Ok(p) => Ok(p@),
        Err(e) => Err(e@),
    }
}

/// A refusal as a value.
pub open spec fn refused<T>(kind: ErrorKind, reason: Seq<char>) -> Result<T, ErrorView> {
    Err(ErrorView { kind: kind, reason: reason })
}

/// What the sandbox says of `rel`, as a decision.
pub open spec fn sandboxed(root: Seq<char>, rel: Seq<char>, probe: PathProbe) -> Result<
    Seq<char>,
    ErrorView,
> {
    match resolve_probe(root, rel, probe) {
        Ok(p) => Ok(p),
        Err(kind) => refused(kind, refusal_reason(kind)),
    }
}

/// The path, relative to the root, that an upload is written to: the file
/// name, inside the target directory where one is given. The `/` at both
/// ends of the directory do not count.
pub open spec fn upload_target_of(target_path: Option<Seq<char>>, file_name: Seq<char>) -> Seq<
    char,
> {
    match target_path {
        Some(dir) => if dir.len() == 0 {
            file_name
        } else {
            trim_slashes(dir) + seq!['/'] + file_name
        },
        None => file_name,
    }
}

/// The relative path of an upload.
pub fn upload_target(target_path: Option<&str>, file_name: &str) -> (r: String)
    ensures
        r@ == upload_target_of(optional_str(target_path), file_name@),
{
    match target_path {
        Some(dir) => {
            if dir.unicode_len() == 0 {
                file_name.to_owned()
            } else {
                let mut out = trim_separators(dir).to_owned();
                proof {
                    reveal_strlit("/");
                }
                out.append("/");
                out.append(file_name);
                assert(out@ =~= trim_slashes(dir@) + seq!['/'] + file_name@);
                out
            }
        },
        None => file_name.to_owned(),
    }
}

/// What is asked of an upload before anything else: the file. `Ok` holds
/// the upload's path relative to the root.
pub open spec fn upload_check_of(
    target_path: Option<Seq<char>>,
    file_name: Option<Seq<char>>,
) -> Result<Seq<char>, ErrorView> {
    match file_name {
        Some(name) => Ok(upload_target_of(target_path, name)),
        None => refused(ErrorKind::BadRequest, "Missing file"@),
    }
}

/// The decision on an upload of a file called `file_name` into
/// `target_path`; `probe` is what the filesystem said of the upload's
/// target. `Ok` holds the path to write the body to.
pub open spec fn upload_decision(
    root: Seq<char>,
    target_path: Option<Seq<char>>,
    file_name: Option<Seq<char>>,
    probe: PathProbe,
) -> Result<Seq<char>, ErrorView> {
    match upload_check_of(target_path, file_name) {
        Err(e) => Err(e),
        Ok(rel) => match sandboxed(root, rel, probe) {
            Err(e) => Err(e),
            Ok(p) => if probe.exists {
                refused(ErrorKind::Conflict, "File already exists"@)
            } else if !probe.parent_exists {
                refused(ErrorKind::BadRequest, "Target folder does not exist"@)
            } else {
                Ok(p)
            },
        },
    }
}

/// The first step of an upload, before the disk is asked: is there a
/// file, and where is it to go.
pub fn upload_check(target_path: Option<&str>, file_name: Option<&str>) -> (r: Result<
    String,
    AppError,
>)
    ensures
        outcome(r) == upload_check_of(optional_str(target_path), optional_str(file_name)),
{
    match file_name {
        Some(name) => Ok(upload_target(target_path, name)),
        None => Err(AppError::of(ErrorKind::BadRequest, "Missing file")),
    }
}

/// Decides on an upload. An existing target is never written to.
pub fn upload_file(
    root: &str,
    target_path: Option<&str>,
    file_name: Option<&str>,
    probe: &PathProbe,
) -> (r: Result<String, AppError>)
    ensures
        outcome(r) == upload_decision(
            root@,
            optional_str(target_path),
            optional_str(file_name),
            *probe,
        ),
{
    let rel = match upload_check(target_path, file_name) {
        Ok(rel) => rel,
        Err(e) => {
            return Err(e);
        },
    };
    let path = match safe_path(root, rel.as_str(), probe) {
        Ok(p) => p,
        Err(e) => {
            return Err(e);
        },
    };
    if probe.exists {
        Err(AppError::of(ErrorKind::Conflict, "File already exists"))
    } else if !probe.parent_exists {
        Err(AppError::of(ErrorKind::BadRequest, "Target folder does not exist"))
    } else {
        Ok(path)
    }
}

/// Whether the tree, if there is one, holds an entry at `path`.
pub open spec fn in_tree(tree: Option<EntryView>, path: Seq<char>) -> bool {
    find_in_tree(tree, path) is Some
}

/// The view of a tree that may be absent.
pub open spec fn tree_view(tree: Option<&FileEntry>) -> Option<EntryView> {
    match tree {
        Some(t) => Some(t@),
        None => None,
    }
}

/// Whether the snapshot holds an entry at `path`.
pub fn tree_holds(tree: Option<&FileEntry>, path: &str) -> (r: bool)
    ensures
        r == in_tree(tree_view(tree), path@),
{
    match tree {
        Some(t) => find_entry(t, path).is_some(),
        None => false,
    }
}

/// A check as a value: the refusal, if there is one.
pub open spec fn check_outcome(r: Result<(), AppError>) -> Option<ErrorView> {
    match r {
        Ok(_) => None,
        Err(e) => Some(e@),
    }
}

/// What is asked of a deletion before the disk is: the tree must hold the
/// entry.
pub open spec fn delete_check_of(tree: Option<EntryView>, path: Seq<char>) -> Option<ErrorView> {
    if in_tree(tree, path) {
        None
    } else {
        Some(ErrorView { kind: ErrorKind::NotFound, reason: "File not found in media tree"@ })
    }
}

/// The first step of a deletion. It reads the tree alone.
pub fn delete_check(tree: Option<&FileEntry>, request: &DeleteRequest) -> (r: Result<(), AppError>)
    ensures
        check_outcome(r) == delete_check_of(tree_view(tree), request.path@),
{
    if tree_holds(tree, request.path.as_str()) {
        Ok(())
    } else {
        Err(AppError::of(ErrorKind::NotFound, "File not found in media tree"))
    }
}

/// The decision on deleting the file at `path`. An entry that the tree
/// does not hold is not found, whatever is on disk; `Ok` holds the path of
/// the file to remove.
pub open spec fn delete_decision(
    root: Seq<char>,
    tree: Option<EntryView>,
    path: Seq<char>,
    probe: PathProbe,
) -> Result<Seq<char>, ErrorView> {
    match delete_check_of(tree, path) {
        Some(e) => Err(e),
        None => match sandboxed(root, path, probe) {
            Err(e) => Err(e),
            Ok(p) => if !probe.exists {
                refused(ErrorKind::NotFound, "File not found"@)
            } else {
                Ok(p)
            },
        },
    }
}

/// Decides on a deletion.
pub fn delete_file(
    root: &str,
    tree: Option<&FileEntry>,
    request: &DeleteRequest,
    probe: &PathProbe,
) -> (r: Result<String, AppError>)
    ensures
        outcome(r) == delete_decision(root@, tree_view(tree), request.path@, *probe),
{
    match delete_check(tree, request) {
        Ok(_) => {},
        Err(e) => {
            return Err(e);
        },
    }
    let resolved = match safe_path(root, request.path.as_str(), probe) {
        Ok(p) => p,
        Err(e) => {
            return Err(e);
        },
    };
    if !probe.exists {
        Err(AppError::of(ErrorKind::NotFound, "File not found"))
    } else {
        Ok(resolved)
    }
}

/// The extension by which a replacement is held against the original: the
/// lowercase form of the path's extension, or nothing.
pub open spec fn folded_extension(path: Seq<char>) -> Seq<char> {
    match extension_of(path) {
        Some(e) => lowercase_of(e),
        None => Seq::empty(),
    }
}

fn fold_extension(path: &str) -> (r: String)
    ensures
        r@ == folded_extension(path@),
{
    match extension(path) {
        Some(e) => lowercase(e),
        None => String::new(),
    }
}

/// The reason given when a replacement has another extension.
pub open spec fn mismatch_reason(original: Seq<char>, uploaded: Seq<char>) -> Seq<char> {
    "Extension mismatch: original is ."@ + original + ", uploaded is ."@ + uploaded
}

/// What a replacement does on disk.
#[derive(Debug)]
pub struct ReplacePlan {
    /// The path to write the new bytes to.
    pub path: String,
    /// Whether a regular file stands there and is removed first.
    pub remove_old: bool,
}

/// A `ReplacePlan` as a value.
pub struct ReplacePlanView {
    pub path: Seq<char>,
    pub remove_old: bool,
}

impl View for ReplacePlan {
    type V = ReplacePlanView;

    open spec fn view(&self) -> ReplacePlanView {
        ReplacePlanView { path: self.path@, remove_old: self.remove_old }
    }
}

/// What is asked of a replacement before the disk is: both the path and
/// the file must be given, their extensions must agree, whatever their
/// case, and the tree must hold the entry.
pub open spec fn update_check_of(
    tree: Option<EntryView>,
    replace_path: Option<Seq<char>>,
    file_name: Option<Seq<char>>,
) -> Option<ErrorView> {
    match (replace_path, file_name) {
        (Some(path), Some(name)) => replacement_check_of(tree, path, name),
        _ => Some(ErrorView { kind: ErrorKind::BadRequest, reason: "Missing file or path"@ }),
    }
}

/// The decision on replacing the file at `replace_path` by an upload
/// called `file_name`. `Ok` holds what is to be done on disk.
pub open spec fn update_decision(
    root: Seq<char>,
    tree: Option<EntryView>,
    replace_path: Option<Seq<char>>,
    file_name: Option<Seq<char>>,
    probe: PathProbe,
) -> Result<ReplacePlanView, ErrorView> {
    match update_check_of(tree, replace_path, file_name) {
        Some(e) => Err(e),
        None => match sandboxed(root, replace_path->0, probe) {
            Err(e) => Err(e),
            Ok(p) => Ok(ReplacePlanView { path: p, remove_old: probe.exists && probe.is_file }),
        },
    }
}

/// A replace decision as a value.
pub open spec fn replace_outcome(r: Result<ReplacePlan, AppError>) -> Result<
    ReplacePlanView,
    ErrorView,
> {
    match r {
        Ok(p) => Ok(p@),
        Err(e) => Err(e@),
    }
}

/// What the comparison of two lowercase extensions says: nothing if they
/// are the same, else the refusal of the replacement.
pub open spec fn extension_check_of(original: Seq<char>, uploaded: Seq<char>) -> Option<ErrorView> {
    if original == uploaded {
        None
    } else {
        Some(ErrorView { kind: ErrorKind::BadRequest, reason: mismatch_reason(original, uploaded) })
    }
}

/// Holds the lowercase extension of an upload against that of the file it
/// is to replace. A file is only replaced by one of its own format.
pub fn same_extension(original: &str, uploaded: &str) -> (r: Result<(), AppError>)
    ensures
        check_outcome(r) == extension_check_of(original@, uploaded@),
{
    if text_eq(original, uploaded) {
        Ok(())
    } else {
        let mut reason = "Extension mismatch: original is .".to_owned();
        reason.append(original);
        reason.append(", uploaded is .");
        reason.append(uploaded);
        assert(reason@ =~= mismatch_reason(original@, uploaded@));
        Err(AppError::new(ErrorKind::BadRequest, reason))
    }
}

/// What is asked of the replacement of the file at `path` by an upload
/// called `name`, before the disk is: the extensions must agree, whatever
/// their case, and the tree must hold the entry.
pub open spec fn replacement_check_of(
    tree: Option<EntryView>,
    path: Seq<char>,
    name: Seq<char>,
) -> Option<ErrorView> {
    match extension_check_of(folded_extension(path), folded_extension(name)) {
        Some(e) => Some(e),
        None => if in_tree(tree, path) {
            None
        } else {
            Some(ErrorView { kind: ErrorKind::NotFound, reason: "File not found in media tree"@ })
        },
    }
}

fn replacement_check(tree: Option<&FileEntry>, path: &str, name: &str) -> (r: Result<(), AppError>)
    ensures
        check_outcome(r) == replacement_check_of(tree_view(tree), path@, name@),
{
    let original = fold_extension(path);
    let uploaded = fold_extension(name);
    match same_extension(original.as_str(), uploaded.as_str()) {
        Ok(_) => {},
        Err(e) => {
            return Err(e);
        },
    }
    if tree_holds(tree, path) {
        Ok(())
    } else {
        Err(AppError::of(ErrorKind::NotFound, "File not found in media tree"))
    }
}

/// The first step of a replacement. It reads the request and the tree
/// alone.
pub fn update_check(
    tree: Option<&FileEntry>,
    replace_path: Option<&str>,
    file_name: Option<&str>,
) -> (r: Result<(), AppError>)
    ensures
        check_outcome(r) == update_check_of(
            tree_view(tree),
            optional_str(replace_path),
            optional_str(file_name),
        ),
{
    match (replace_path, file_name) {
        (Some(path), Some(name)) => replacement_check(tree, path, name),
        _ => Err(AppError::of(ErrorKind::BadRequest, "Missing file or path")),
    }
}

/// Decides on a replacement.
pub fn update_file(
    root: &str,
    tree: Option<&FileEntry>,
    replace_path: Option<&str>,
    file_name: Option<&str>,
    probe: &PathProbe,
) -> (r: Result<ReplacePlan, AppError>)
    ensures
        replace_outcome(r) == update_decision(
            root@,
            tree_view(tree),
            optional_str(replace_path),
            optional_str(file_name),
            *probe,
        ),
{
    let (path, name) = match (replace_path, file_name) {
        (Some(path), Some(name)) => (path, name),
        _ => {
            return Err(AppError::of(ErrorKind::BadRequest, "Missing file or path"));
        },
    };
    match replacement_check(tree, path, name) {
        Ok(_) => {},
        Err(e) => {
            return Err(e);
        },
    }
    match safe_path(root, path, probe) {
        Ok(p) => Ok(ReplacePlan { path: p, remove_old: probe.exists && probe.is_file }),
        Err(e) => Err(e),
    }
}

/// The decision on creating the folder at `path`. `Ok` holds the path of
/// the directory to create.
pub open spec fn create_folder_decision(
    root: Seq<char>,
    path: Seq<char>,
    probe: PathProbe,
) -> Result<Seq<char>, ErrorView> {
    match sandboxed(root, path, probe) {
        Err(e) => Err(e),
        Ok(p) => if probe.exists {
            refused(ErrorKind::Conflict, "Folder already exists"@)
        } else {
            Ok(p)
        },
    }
}

/// Decides on the creation of a folder.
pub fn create_folder(root: &str, request: &CreateFolderRequest, probe: &PathProbe) -> (r: Result<
    String,
    AppError,
>)
    ensures
        outcome(r) == create_folder_decision(root@, request.path@, *probe),
{
    let resolved = match safe_path(root, request.path.as_str(), probe) {
        Ok(p) => p,
        Err(e) => {
            return Err(e);
        },
    };
    if probe.exists {
        Err(AppError::of(ErrorKind::Conflict, "Folder already exists"))
    } else {
        Ok(resolved)
    }
}

/// The decision on opening the file at `path` for reading: it must pass
/// the sandbox, the tree must hold it, and it must be on disk. `Ok` holds
/// the path to open.
pub open spec fn open_decision(
    root: Seq<char>,
    tree: Option<EntryView>,
    path: Seq<char>,
    probe: PathProbe,
) -> Result<Seq<char>, ErrorView> {
    match sandboxed(root, path, probe) {
        Err(e) => Err(e),
        Ok(p) => if !in_tree(tree, path) || !probe.exists {
            refused(ErrorKind::NotFound, "File not found"@)
        } else {
            Ok(p)
        },
    }
}

/// Decides on a request for a file's content.
pub fn open(root: &str, tree: Option<&FileEntry>, path: &str, probe: &PathProbe) -> (r: Result<
    String,
    AppError,
>)
    ensures
        outcome(r) == open_decision(root@, tree_view(tree), path@, *probe),
{
    let resolved = match safe_path(root, path, probe) {
        Ok(p) => p,
        Err(e) => {
            return Err(e);
        },
    };
    if !tree_holds(tree, path) || !probe.exists {
        Err(AppError::of(ErrorKind::NotFound, "File not found"))
    } else {
        Ok(resolved)
    }
}

/// Whether the entry at `path` is served from a transcoded derivative: it
/// is a file that a browser does not show as it is.
pub open spec fn served_transcoded(tree: Option<EntryView>, path: Seq<char>) -> bool {
    match find_in_tree(tree, path) {
        Some(e) => !e.is_dir && !e.is_browser_supported,
        None => false,
    }
}

/// Whether a request for the content at `path` is answered from the cache
/// of derived files.
pub fn needs_transcoding(tree: Option<&FileEntry>, path: &str) -> (r: bool)
    ensures
        r == served_transcoded(tree_view(tree), path@),
{
    match tree {
        Some(t) => match find_entry(t, path) {
            Some(e) => !e.is_dir && !e.is_browser_supported,
            None => false,
        },
        None => false,
    }
}

/// What the caller of a decision does on disk.
pub enum DiskEffect {
    /// The request was refused: nothing is touched.
    Nothing,
    /// The body is written to a new file.
    Write(Seq<char>),
    /// The file is removed.
    Remove(Seq<char>),
    /// The body takes the place of what stands at the path.
    Replace(Seq<char>),
    /// The directory is created.
    MakeDir(Seq<char>),
}

/// What an upload does on disk.
pub open spec fn upload_effect(decision: Result<Seq<char>, ErrorView>) -> DiskEffect {
    match decision {
        Ok(p) => DiskEffect::Write(p),
        Err(_) => DiskEffect::Nothing,
    }
}

/// What a deletion does on disk.
pub open spec fn delete_effect(decision: Result<Seq<char>, ErrorView>) -> DiskEffect {
    match decision {
        Ok(p) => DiskEffect::Remove(p),
        Err(_) => DiskEffect::Nothing,
    }
}

/// What a replacement does on disk.
pub open spec fn update_effect(decision: Result<ReplacePlanView, ErrorView>) -> DiskEffect {
    match decision {
        Ok(plan) => DiskEffect::Replace(plan.path),
        Err(_) => DiskEffect::Nothing,
    }
}

/// What the creation of a folder does on disk.
pub open spec fn create_folder_effect(decision: Result<Seq<char>, ErrorView>) -> DiskEffect {
    match decision {
        Ok(p) => DiskEffect::MakeDir(p),
        Err(_) => DiskEffect::Nothing,
    }
}

/// The bytes of each file after an effect that went through, `body` being
/// the bytes that came with the request.
pub open spec fn files_after(
    files: Map<Seq<char>, Seq<u8>>,
    effect: DiskEffect,
    body: Seq<u8>,
) -> Map<Seq<char>, Seq<u8>> {
    match effect {
        DiskEffect::Nothing => files,
        DiskEffect::Write(p) => files.insert(p, body),
        DiskEffect::Remove(p) => files.remove(p),
        DiskEffect::Replace(p) => files.insert(p, body),
        DiskEffect::MakeDir(_) => files,
    }
}

/// An upload to a path that exists already, and that the sandbox lets
/// pass, is refused as a conflict, and every file keeps its bytes.
pub proof fn lemma_upload_keeps_existing(
    root: Seq<char>,
    target_path: Option<Seq<char>>,
    file_name: Seq<char>,
    probe: PathProbe,
    files: Map<Seq<char>, Seq<u8>>,
    body: Seq<u8>,
)
    requires
        probe.exists,
        sandboxed(root, upload_target_of(target_path, file_name), probe) is Ok,
    ensures
        upload_decision(root, target_path, Some(file_name), probe) == refused::<Seq<char>>(
            ErrorKind::Conflict,
            "File already exists"@,
        ),
        files_after(
            files,
            upload_effect(upload_decision(root, target_path, Some(file_name), probe)),
            body,
        ) == files,
{
}

/// An upload is only ever written where nothing exists.
pub proof fn lemma_upload_never_overwrites(
    root: Seq<char>,
    target_path: Option<Seq<char>>,
    file_name: Option<Seq<char>>,
    probe: PathProbe,
)
    ensures
        upload_decision(root, target_path, file_name, probe) is Ok ==> !probe.exists,
{
}

/// A replacement whose file has another extension than the original,
/// whatever the case of the two, is refused as a bad request before the
/// disk is asked, whatever the tree holds and whatever is on disk, and
/// every file keeps its bytes.
pub proof fn lemma_replace_needs_same_extension(
    root: Seq<char>,
    tree: Option<EntryView>,
    path: Seq<char>,
    file_name: Seq<char>,
    probe: PathProbe,
    files: Map<Seq<char>, Seq<u8>>,
    body: Seq<u8>,
)
    requires
        folded_extension(path) != folded_extension(file_name),
    ensures
        update_check_of(tree, Some(path), Some(file_name)) == Some(
            ErrorView {
                kind: ErrorKind::BadRequest,
                reason: mismatch_reason(folded_extension(path), folded_extension(file_name)),
            },
        ),
        update_decision(root, tree, Some(path), Some(file_name), probe) == Err::<
            ReplacePlanView,
            ErrorView,
        >(update_check_of(tree, Some(path), Some(file_name))->0),
        files_after(
            files,
            update_effect(update_decision(root, tree, Some(path), Some(file_name), probe)),
            body,
        ) == files,
{
}

/// The deletion of a path that the tree does not hold is refused as not
/// found by the check that reads the tree alone. The decision is the same
/// whatever the filesystem would say, so the filesystem is not asked; and
/// every file keeps its bytes.
pub proof fn lemma_delete_unknown_is_not_found(
    root: Seq<char>,
    tree: Option<EntryView>,
    path: Seq<char>,
    probe: PathProbe,
    files: Map<Seq<char>, Seq<u8>>,
    body: Seq<u8>,
)
    requires
        !in_tree(tree, path),
    ensures
        delete_check_of(tree, path) == Some(
            ErrorView { kind: ErrorKind::NotFound, reason: "File not found in media tree"@ },
        ),
        delete_decision(root, tree, path, probe) == Err::<Seq<char>, ErrorView>(
            delete_check_of(tree, path)->0,
        ),
        files_after(files, delete_effect(delete_decision(root, tree, path, probe)), body) == files,
{
}

/// Of two replacements of one path that are carried out one after the
/// other, as the lock of the path has them, the second decides what the
/// file holds; files at other paths keep their bytes.
pub proof fn lemma_second_write_wins(
    files: Map<Seq<char>, Seq<u8>>,
    path: Seq<char>,
    first: Seq<u8>,
    second: Seq<u8>,
)
    ensures
        files_after(
            files_after(files, DiskEffect::Replace(path), first),
            DiskEffect::Replace(path),
            second,
        ) == files_after(files, DiskEffect::Replace(path), second),
        files_after(files, DiskEffect::Replace(path), second)[path] == second,
        forall|other: Seq<char>|
            other != path && files.dom().contains(other) ==> #[trigger] files_after(
                files,
                DiskEffect::Replace(path),
                second,
            )[other] == files[other],
{
    assert(files.insert(path, first).insert(path, second) =~= files.insert(path, second));
}

/// A path that a decision hands out for writing, removing or creating is
/// the root or lies below it.
pub proof fn lemma_decisions_stay_in_the_sandbox(
    root: Seq<char>,
    tree: Option<EntryView>,
    path: Seq<char>,
    target_path: Option<Seq<char>>,
    file_name: Option<Seq<char>>,
    probe: PathProbe,
)
    ensures
        upload_decision(root, target_path, file_name, probe) matches Ok(p) ==> within(root, p),
        delete_decision(root, tree, path, probe) matches Ok(p) ==> within(root, p),
        update_decision(root, tree, Some(path), file_name, probe) matches Ok(plan) ==> within(
            root,
            plan.path,
        ),
        create_folder_decision(root, path, probe) matches Ok(p) ==> within(root, p),
        open_decision(root, tree, path, probe) matches Ok(p) ==> within(root, p),
{
    lemma_resolved_within(
        root,
        path,
        optional_text(probe.canonical),
        optional_text(probe.parent_canonical),
    );
    match file_name {
        Some(name) => {
            lemma_resolved_within(
                root,
                upload_target_of(target_path, name),
                optional_text(probe.canonical),
                optional_text(probe.parent_canonical),
            );
        },
        None => {},
    }
}

} // verus!
