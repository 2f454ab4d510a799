//! Walking through folders in search of PDF files.
//!
//! The walk is driven from outside: a step says which folder is to be read next, and what was found
//! in it is handed back. What was found is then put in the order of the paths.
use crate::order;
use crate::paths;
use crate::ranking;
use crate::ranking::Ranked;
use crate::text;
use vstd::prelude::*;
use vstd::string::StringExecFns;

verus! {

/// The deepest folder that is read, counted from the first one.
pub const MAX_DEPTH: usize = 12;

/// So many files are enough.
pub const MAX_PDFS: usize = 2000;

/// What is found in a folder. Folders and files are told apart by numbers of the caller's choice.
#[derive(Debug, Clone)]
pub enum Entry {
    /// An entry that could not be read.
    Unreadable(String),
    /// An entry of which it could not be told what it is.
    Untyped { path: String, err: String },
    Folder { id: usize, path: String, name: String },
    File { id: usize, name: String },
    Other,
}

/// What an entry stands for.
pub enum EntryView {
    Unreadable(Seq<char>),
    Untyped(Seq<char>, Seq<char>),
    Folder(usize, Seq<char>, Seq<char>),
    File(usize, Seq<char>),
    Other,
}

impl View for Entry {
    type V = EntryView;

    open spec fn view(&self) -> EntryView {
        match self {
            Entry::Unreadable(err) => EntryView::Unreadable(err@),
            Entry::Untyped { path, err } => EntryView::Untyped(path@, err@),
            Entry::Folder { id, path, name } => EntryView::Folder(*id, path@, name@),
            Entry::File { id, name } => EntryView::File(*id, name@),
            Entry::Other => EntryView::Other,
        }
    }
}

pub open spec fn entry_views(entries: Seq<Entry>) -> Seq<EntryView> {
    entries.map_values(|entry: Entry| entry@)
}

/// A folder that is being read: the entries that are left, the next one last.
#[derive(Debug)]
struct OpenFolder {
    path: String,
    depth: usize,
    left: Vec<Entry>,
}

/// A folder that is being read: the entries that are left, in their order.
pub struct FolderView {
    pub path: Seq<char>,
    pub depth: nat,
    pub rest: Seq<EntryView>,
}

impl View for OpenFolder {
    type V = FolderView;

    closed spec fn view(&self) -> FolderView {
        FolderView {
            path: self.path@,
            depth: self.depth as nat,
            rest: entry_views(self.left@).reverse(),
        }
    }
}

/// A walk: the files found so far and the folders that are being read, the deepest one last.
#[derive(Debug)]
pub struct Walk {
    found: Vec<usize>,
    open: Vec<OpenFolder>,
}

/// What a walk needs next, or what it has come to.
#[derive(Debug)]
pub enum WalkStep {
    /// The entries of a folder.
    Read { id: usize, path: String, depth: usize },
    Done,
    Failed(String),
}

pub enum StepView {
    Read(usize, Seq<char>, nat),
    Done,
    Failed(Seq<char>),
}

impl View for WalkStep {
    type V = StepView;

    open spec fn view(&self) -> StepView {
        match self {
            WalkStep::Read { id, path, depth } => StepView::Read(*id, path@, *depth as nat),
            WalkStep::Done => StepView::Done,
            WalkStep::Failed(err) => StepView::Failed(err@),
        }
    }
}

/// Whether a folder is left out: it is hidden, or holds build results.
pub open spec fn is_skipped(name: Seq<char>) -> bool {
    (name.len() > 0 && name[0] == '.') || name == "target"@
}

/// Whether a file of this name is looked for.
pub open spec fn is_pdf_file(name: Seq<char>) -> bool {
    paths::has_pdf_extension(Some(name))
}

pub open spec fn failure(path: Seq<char>, err: Seq<char>) -> Seq<char> {
    path + ": "@ + err
}

/// How much is left to look at.
pub open spec fn weight(open: Seq<FolderView>) -> nat
    decreases open.len(),
{
    if open.len() == 0 {
        0
    } else {
        weight(open.drop_last()) + open.last().rest.len() + 1
    }
}

/// How far a walk gets without reading a folder: the files found, the folders still open and the
/// next step.
pub open spec fn run(open: Seq<FolderView>, found: Seq<usize>) -> (
    Seq<usize>,
    Seq<FolderView>,
    StepView,
)
    decreases weight(open),
    via run_ends
{
    if open.len() == 0 {
        (found, open, StepView::Done)
    } else {
        let top = open.last();
        let outer = open.drop_last();
        if top.rest.len() == 0 {
            run(outer, found)
        } else {
            let next = outer.push(FolderView { rest: top.rest.skip(1), ..top });
            match top.rest[0] {
                EntryView::Unreadable(err) => (
                    found,
                    next,
                    StepView::Failed(failure(top.path, err)),
                ),
                EntryView::Untyped(path, err) => (
                    found,
                    next,
                    StepView::Failed(failure(path, err)),
                ),
                EntryView::Folder(id, path, name) => if is_skipped(name) || top.depth >= MAX_DEPTH
                    || found.len() >= MAX_PDFS {
                    run(next, found)
                } else {
                    (found, next, StepView::Read(id, path, top.depth + 1))
                },
                EntryView::File(id, name) => if !is_pdf_file(name) {
                    run(next, found)
                } else if found.len() + 1 >= MAX_PDFS {
                    run(outer, found.push(id))
                } else {
                    run(next, found.push(id))
                },
                EntryView::Other => run(next, found),
            }
        }
    }
}

#[via_fn]
proof fn run_ends(open: Seq<FolderView>, found: Seq<usize>) {
    if open.len() > 0 {
        let top = open.last();
        let outer = open.drop_last();
        let next = outer.push(FolderView { rest: top.rest.skip(1), ..top });
        assert(next.drop_last() =~= outer);
    }
}

impl Walk {
    /// The files found so far.
    pub closed spec fn files(self) -> Seq<usize> {
        self.found@
    }

    /// The folders that are being read.
    pub closed spec fn folders(self) -> Seq<FolderView> {
        self.open@.map_values(|folder: OpenFolder| folder@)
    }

    fn advance(&mut self) -> (r: WalkStep)
        ensures
            (final(self).files(), final(self).folders(), r@) == run(
                old(self).folders(),
                old(self).files(),
            ),
    {
        let ghost whole = run(self.folders(), self.files());
        loop
            invariant
                whole == run(self.folders(), self.files()),
                whole == run(old(self).folders(), old(self).files()),
            decreases weight(self.folders()),
        {
            let ghost open = self.folders();
            let ghost found = self.files();
            let mut folder = match self.open.pop() {
                None => {
                    assert(self.folders() =~= open);
                    return WalkStep::Done;
                },
                Some(folder) => folder,
            };
            let ghost top = folder@;
            let ghost left = folder.left@;
            let ghost outer = open.drop_last();
            assert(open.last() == top);
            assert(self.folders() =~= outer);
            let entry = match folder.left.pop() {
                None => {
                    assert(top.rest.len() == 0);
                    continue ;
                },
                Some(entry) => entry,
            };
            let ghost next = outer.push(FolderView { rest: top.rest.skip(1), ..top });
            proof {
                assert(top.rest[0] == entry@);
                assert(entry_views(folder.left@).reverse() =~= top.rest.skip(1));
                assert(next.drop_last() =~= outer);
            }
            match entry {
                Entry::Unreadable(err) => {
                    let mut out = text::owned(folder.path.as_str());
                    out.append(": ");
                    out.append(err.as_str());
                    self.open.push(folder);
                    assert(self.folders() =~= next);
                    return WalkStep::Failed(out);
                },
                Entry::Untyped { path, err } => {
                    let mut out = path;
                    out.append(": ");
                    out.append(err.as_str());
                    self.open.push(folder);
                    assert(self.folders() =~= next);
                    return WalkStep::Failed(out);
                },
                Entry::Folder { id, path, name } => {
                    let depth = folder.depth;
                    self.open.push(folder);
                    assert(self.folders() =~= next);
                    if !skips(name.as_str()) && depth < MAX_DEPTH && self.found.len() < MAX_PDFS {
                        return WalkStep::Read { id, path, depth: depth + 1 };
                    }
                },
                Entry::File { id, name } => {
                    let is_pdf = paths::is_pdf_name(name.as_str());
                    if is_pdf {
                        self.found.push(id);
                        assert(self.files() =~= found.push(id));
                    }
                    if !is_pdf || self.found.len() < MAX_PDFS {
                        self.open.push(folder);
                        assert(self.folders() =~= next);
                    } else {
                        assert(self.folders() =~= outer);
                    }
                },
                Entry::Other => {
                    self.open.push(folder);
                    assert(self.folders() =~= next);
                },
            }
        }
    }

    /// Hands the entries of the folder that was asked for to the walk, or why it could not be read.
    pub fn walk_pdfs(
        &mut self,
        path: String,
        depth: usize,
        listing: Result<Vec<Entry>, String>,
    ) -> (r: WalkStep)
        ensures
            match listing {
                Ok(entries) => (final(self).files(), final(self).folders(), r@) == run(
                    old(self).folders().push(
                        FolderView { path: path@, depth: depth as nat, rest: entry_views(entries@) },
                    ),
                    old(self).files(),
                ),
                Err(err) => {
                    &&& r@ == StepView::Failed(failure(path@, err@))
                    &&& final(self).files() == old(self).files()
                    &&& final(self).folders() == old(self).folders()
                },
            },
    {
        match listing {
            Ok(entries) => {
                let ghost given = entry_views(entries@);
                let mut entries = entries;
                let mut left: Vec<Entry> = Vec::new();
                while entries.len() > 0
                    invariant
                        entry_views(entries@) + entry_views(left@).reverse() == given,
                    decreases entries@.len(),
                {
                    let ghost before = entries@;
                    let ghost old_left = left@;
                    match entries.pop() {
                        Some(entry) => {
                            left.push(entry);
                        },
                        None => {},
                    }
                    assert(entry_views(entries@) + entry_views(left@).reverse() =~= entry_views(
                        before,
                    ) + entry_views(old_left).reverse());
                }
                assert(entry_views(left@).reverse() =~= given);
                let ghost open = self.folders();
                let folder = OpenFolder { path, depth, left };
                let ghost f = folder@;
                self.open.push(folder);
                assert(self.folders() =~= open.push(f));
                self.advance()
            },
            Err(err) => {
                let mut out = path;
                out.append(": ");
                out.append(err.as_str());
                WalkStep::Failed(out)
            },
        }
    }

    /// The files that were found.
    pub fn found(self) -> (r: Vec<usize>)
        ensures
            r@ == self.files(),
    {
        self.found
    }
}

fn skips(name: &str) -> (r: bool)
    ensures
        r == is_skipped(name@),
{
    let chars = text::characters(name);
    (chars.len() > 0 && chars[0] == '.') || text::same_text(name, "target")
}

/// Begins a walk with the folder from which files are collected.
pub fn collect_pdfs(id: usize, path: String) -> (r: (Walk, WalkStep))
    ensures
        r.0.files() == Seq::<usize>::empty(),
        r.0.folders() == Seq::<FolderView>::empty(),
        r.1@ == StepView::Read(id, path@, 0),
{
    let walk = Walk { found: Vec::new(), open: Vec::new() };
    assert(walk.folders() =~= Seq::<FolderView>::empty());
    (walk, WalkStep::Read { id, path, depth: 0 })
}

/// What every folder holds, or why it cannot be read.
pub type Tree = spec_fn(usize) -> Result<Seq<EntryView>, Seq<char>>;

/// The files that are found in a folder and those below it, behind those found before.
pub open spec fn folder_files(
    tree: Tree,
    id: usize,
    path: Seq<char>,
    depth: nat,
    found: Seq<usize>,
) -> Result<Seq<usize>, Seq<char>>
    decreases MAX_DEPTH + 1 - depth, 1int, 0nat,
    when depth <= MAX_DEPTH
{
    match tree(id) {
        Ok(entries) => entries_files(tree, entries, path, depth, found),
        Err(err) => Err(failure(path, err)),
    }
}

/// The files that are found among the entries of a folder, in their order: a folder among them is
/// gone through where it stands, unless it is left out, lies too deep or enough has been found; the
/// folder is left when its files make enough.
pub open spec fn entries_files(
    tree: Tree,
    entries: Seq<EntryView>,
    path: Seq<char>,
    depth: nat,
    found: Seq<usize>,
) -> Result<Seq<usize>, Seq<char>>
    decreases MAX_DEPTH + 1 - depth, 0int, entries.len(),
    when depth <= MAX_DEPTH
{
    if entries.len() == 0 {
        Ok(found)
    } else {
        let rest = entries.skip(1);
        match entries[0] {
            EntryView::Unreadable(err) => Err(failure(path, err)),
            EntryView::Untyped(at, err) => Err(failure(at, err)),
            EntryView::Folder(id, at, name) => if is_skipped(name) || depth >= MAX_DEPTH
                || found.len() >= MAX_PDFS {
                entries_files(tree, rest, path, depth, found)
            } else {
                match folder_files(tree, id, at, depth + 1, found) {
                    Ok(more) => entries_files(tree, rest, path, depth, more),
                    Err(err) => Err(err),
                }
            },
            EntryView::File(id, name) => if !is_pdf_file(name) {
                entries_files(tree, rest, path, depth, found)
            } else if found.len() + 1 >= MAX_PDFS {
                Ok(found.push(id))
            } else {
                entries_files(tree, rest, path, depth, found.push(id))
            },
            EntryView::Other => entries_files(tree, rest, path, depth, found),
        }
    }
}

/// What a walk with these open folders comes to.
pub open spec fn open_files(tree: Tree, open: Seq<FolderView>, found: Seq<usize>) -> Result<
    Seq<usize>,
    Seq<char>,
>
    decreases open.len(),
{
    if open.len() == 0 {
        Ok(found)
    } else {
        let top = open.last();
        match entries_files(tree, top.rest, top.path, top.depth, found) {
            Ok(more) => open_files(tree, open.drop_last(), more),
            Err(err) => Err(err),
        }
    }
}

/// What a walk comes to that has got so far.
pub open spec fn outcome(tree: Tree, walked: (Seq<usize>, Seq<FolderView>, StepView)) -> Result<
    Seq<usize>,
    Seq<char>,
> {
    match walked.2 {
        StepView::Done => Ok(walked.0),
        StepView::Failed(err) => Err(err),
        StepView::Read(id, path, depth) => match tree(id) {
            Ok(entries) => open_files(
                tree,
                walked.1.push(FolderView { path, depth, rest: entries }),
                walked.0,
            ),
            Err(err) => Err(failure(path, err)),
        },
    }
}

pub open spec fn within_depth(open: Seq<FolderView>) -> bool {
    forall|i: int| 0 <= i < open.len() ==> (#[trigger] open[i]).depth <= MAX_DEPTH
}

/// A step of the walk leaves what it comes to as it was: whatever the folders hold, going on from the
/// step that it asks for gives the files that the open folders hold, or the first failure.
pub proof fn steps_lead_to_the_files(tree: Tree, open: Seq<FolderView>, found: Seq<usize>)
    requires
        within_depth(open),
    ensures
        outcome(tree, run(open, found)) == open_files(tree, open, found),
        within_depth(run(open, found).1),
        run(open, found).2 matches StepView::Read(_, _, depth) ==> depth <= MAX_DEPTH,
    decreases weight(open),
{
    reveal_with_fuel(open_files, 3);
    reveal_with_fuel(entries_files, 2);
    reveal_with_fuel(folder_files, 2);
    if open.len() > 0 {
        let top = open.last();
        let outer = open.drop_last();
        assert(open[open.len() - 1] == top);
        assert forall|i: int| 0 <= i < outer.len() implies (#[trigger] outer[i]).depth
            <= MAX_DEPTH by {
            assert(outer[i] == open[i]);
        }
        if top.rest.len() == 0 {
            steps_lead_to_the_files(tree, outer, found);
        } else {
            let inner = FolderView { rest: top.rest.skip(1), ..top };
            let next = outer.push(inner);
            assert(next.drop_last() =~= outer);
            assert forall|i: int| 0 <= i < next.len() implies (#[trigger] next[i]).depth
                <= MAX_DEPTH by {
                if i < outer.len() {
                    assert(next[i] == outer[i]);
                }
            }
            match top.rest[0] {
                EntryView::Unreadable(_) => {},
                EntryView::Untyped(_, _) => {},
                EntryView::Folder(id, path, name) => {
                    if is_skipped(name) || top.depth >= MAX_DEPTH || found.len() >= MAX_PDFS {
                        steps_lead_to_the_files(tree, next, found);
                    } else if let Ok(entries) = tree(id) {
                        let deep = next.push(
                            FolderView { path, depth: top.depth + 1, rest: entries },
                        );
                        assert(deep.drop_last() =~= next);
                    }
                },
                EntryView::File(id, name) => {
                    if !is_pdf_file(name) {
                        steps_lead_to_the_files(tree, next, found);
                    } else if found.len() + 1 >= MAX_PDFS {
                        steps_lead_to_the_files(tree, outer, found.push(id));
                    } else {
                        steps_lead_to_the_files(tree, next, found.push(id));
                    }
                },
                EntryView::Other => {
                    steps_lead_to_the_files(tree, next, found);
                },
            }
        }
    }
}

/// A walk that has just begun comes to the files of its folder.
pub proof fn a_walk_begins_with_its_folder(tree: Tree, id: usize, path: Seq<char>)
    ensures
        outcome(tree, (Seq::empty(), Seq::empty(), StepView::Read(id, path, 0))) == folder_files(
            tree,
            id,
            path,
            0,
            Seq::empty(),
        ),
{
    if let Ok(entries) = tree(id) {
        let folder = FolderView { path, depth: 0, rest: entries };
        let open = Seq::<FolderView>::empty().push(folder);
        assert(open.drop_last() =~= Seq::empty());
        let all = entries_files(tree, entries, path, 0, Seq::empty());
        assert(open.last() == folder);
        if let Ok(more) = all {
            assert(open_files(tree, open.drop_last(), more) == Ok::<Seq<usize>, Seq<char>>(more));
        }
    }
}

/// A folder that is left out changes nothing in what is found.
pub proof fn folders_left_out_do_not_count(
    tree: Tree,
    id: usize,
    at: Seq<char>,
    name: Seq<char>,
    rest: Seq<EntryView>,
    path: Seq<char>,
    depth: nat,
    found: Seq<usize>,
)
    requires
        is_skipped(name),
        depth <= MAX_DEPTH,
    ensures
        entries_files(
            tree,
            seq![EntryView::Folder(id, at, name)] + rest,
            path,
            depth,
            found,
        ) == entries_files(tree, rest, path, depth, found),
{
    let entries = seq![EntryView::Folder(id, at, name)] + rest;
    assert(entries.skip(1) =~= rest);
}

/// The most files that a walk has found when it leaves a folder of this depth.
pub open spec fn most_files(depth: nat) -> int {
    MAX_PDFS + MAX_DEPTH - depth
}

proof fn lemma_folder_files_bounded(
    tree: Tree,
    id: usize,
    path: Seq<char>,
    depth: nat,
    found: Seq<usize>,
)
    requires
        depth <= MAX_DEPTH,
        found.len() < MAX_PDFS,
    ensures
        folder_files(tree, id, path, depth, found) matches Ok(more) ==> more.len() <= most_files(
            depth,
        ),
    decreases MAX_DEPTH + 1 - depth, 1int, 0nat,
{
    if let Ok(entries) = tree(id) {
        lemma_entries_files_bounded(tree, entries, path, depth, found);
    }
}

proof fn lemma_entries_files_bounded(
    tree: Tree,
    entries: Seq<EntryView>,
    path: Seq<char>,
    depth: nat,
    found: Seq<usize>,
)
    requires
        depth <= MAX_DEPTH,
        found.len() < most_files(depth),
    ensures
        entries_files(tree, entries, path, depth, found) matches Ok(more) ==> more.len()
            <= most_files(depth),
    decreases MAX_DEPTH + 1 - depth, 0int, entries.len(),
{
    if entries.len() > 0 {
        let rest = entries.skip(1);
        match entries[0] {
            EntryView::Unreadable(_) => {},
            EntryView::Untyped(_, _) => {},
            EntryView::Folder(id, at, name) => {
                if is_skipped(name) || depth >= MAX_DEPTH || found.len() >= MAX_PDFS {
                    lemma_entries_files_bounded(tree, rest, path, depth, found);
                } else {
                    lemma_folder_files_bounded(tree, id, at, depth + 1, found);
                    if let Ok(more) = folder_files(tree, id, at, depth + 1, found) {
                        lemma_entries_files_bounded(tree, rest, path, depth, more);
                    }
                }
            },
            EntryView::File(id, name) => {
                if !is_pdf_file(name) {
                    lemma_entries_files_bounded(tree, rest, path, depth, found);
                } else if found.len() + 1 < MAX_PDFS {
                    lemma_entries_files_bounded(tree, rest, path, depth, found.push(id));
                }
            },
            EntryView::Other => {
                lemma_entries_files_bounded(tree, rest, path, depth, found);
            },
        }
    }
}

/// A walk ends with little more than enough files: each folder on the way back may add one.
pub proof fn a_walk_finds_so_many_at_most(tree: Tree, id: usize, path: Seq<char>)
    ensures
        folder_files(tree, id, path, 0, Seq::empty()) matches Ok(more) ==> more.len() <= MAX_PDFS
            + MAX_DEPTH,
{
    lemma_folder_files_bounded(tree, id, path, 0, Seq::empty());
}

/// Whether a file lies in a folder, at most so many folders down, as one that is looked for: its
/// name is that of a PDF, and no folder on the way to it is left out.
pub open spec fn lies_below(tree: Tree, folder: usize, file: usize, down: nat) -> bool
    decreases down,
{
    match tree(folder) {
        Ok(entries) => exists|i: int|
            0 <= i < entries.len() && match #[trigger] entries[i] {
                EntryView::File(id, name) => id == file && is_pdf_file(name),
                EntryView::Folder(id, _, name) => !is_skipped(name) && down > 0 && lies_below(
                    tree,
                    id,
                    file,
                    (down - 1) as nat,
                ),
                _ => false,
            },
        Err(_) => false,
    }
}

/// Whether an entry is a file that is looked for, or a folder in which it lies.
pub open spec fn leads_to(tree: Tree, entry: EntryView, file: usize, down: nat) -> bool {
    match entry {
        EntryView::File(id, name) => id == file && is_pdf_file(name),
        EntryView::Folder(id, _, name) => !is_skipped(name) && down > 0 && lies_below(
            tree,
            id,
            file,
            (down - 1) as nat,
        ),
        _ => false,
    }
}

proof fn lemma_folder_files_lie_below(
    tree: Tree,
    id: usize,
    path: Seq<char>,
    depth: nat,
    found: Seq<usize>,
)
    requires
        depth <= MAX_DEPTH,
    ensures
        folder_files(tree, id, path, depth, found) matches Ok(more) ==> {
            &&& found.is_prefix_of(more)
            &&& forall|k: int|
                found.len() <= k < more.len() ==> lies_below(
                    tree,
                    id,
                    #[trigger] more[k],
                    (MAX_DEPTH - depth) as nat,
                )
        },
    decreases MAX_DEPTH + 1 - depth, 1int, 0nat,
{
    if let Ok(entries) = tree(id) {
        lemma_entries_files_lie_below(tree, id, entries, 0, path, depth, found);
        assert(entries.skip(0) =~= entries);
    }
}

proof fn lemma_entries_files_lie_below(
    tree: Tree,
    folder: usize,
    entries: Seq<EntryView>,
    at: int,
    path: Seq<char>,
    depth: nat,
    found: Seq<usize>,
)
    requires
        depth <= MAX_DEPTH,
        tree(folder) == Ok::<Seq<EntryView>, Seq<char>>(entries),
        0 <= at <= entries.len(),
    ensures
        entries_files(tree, entries.skip(at), path, depth, found) matches Ok(more) ==> {
            &&& found.is_prefix_of(more)
            &&& forall|k: int|
                found.len() <= k < more.len() ==> lies_below(
                    tree,
                    folder,
                    #[trigger] more[k],
                    (MAX_DEPTH - depth) as nat,
                )
        },
    decreases MAX_DEPTH + 1 - depth, 0int, entries.len() - at,
{
    let left = entries.skip(at);
    let down = (MAX_DEPTH - depth) as nat;
    if at < entries.len() {
        assert(left[0] == entries[at]);
        assert(left.skip(1) =~= entries.skip(at + 1));
        match entries[at] {
            EntryView::Unreadable(_) => {},
            EntryView::Untyped(_, _) => {},
            EntryView::Folder(id, there, name) => {
                if is_skipped(name) || depth >= MAX_DEPTH || found.len() >= MAX_PDFS {
                    lemma_entries_files_lie_below(
                        tree,
                        folder,
                        entries,
                        at + 1,
                        path,
                        depth,
                        found,
                    );
                } else {
                    lemma_folder_files_lie_below(tree, id, there, depth + 1, found);
                    if let Ok(deep) = folder_files(tree, id, there, depth + 1, found) {
                        assert forall|k: int| found.len() <= k < deep.len() implies lies_below(
                            tree,
                            folder,
                            #[trigger] deep[k],
                            down,
                        ) by {
                            assert(lies_below(tree, id, deep[k], (down - 1) as nat));
                            assert(entries[at] == EntryView::Folder(id, there, name));
                        }
                        lemma_entries_files_lie_below(
                            tree,
                            folder,
                            entries,
                            at + 1,
                            path,
                            depth,
                            deep,
                        );
                        if let Ok(more) = entries_files(tree, left.skip(1), path, depth, deep) {
                            assert forall|k: int| 0 <= k < deep.len() implies more[k]
                                == deep[k] by {
                                assert(more.subrange(0, deep.len() as int)[k] == deep[k]);
                            }
                            assert forall|k: int| 0 <= k < found.len() implies more[k]
                                == found[k] by {
                                assert(deep.subrange(0, found.len() as int)[k] == found[k]);
                            }
                            assert(more.subrange(0, found.len() as int) =~= found);
                        }
                    }
                }
            },
            EntryView::File(id, name) => {
                if !is_pdf_file(name) {
                    lemma_entries_files_lie_below(
                        tree,
                        folder,
                        entries,
                        at + 1,
                        path,
                        depth,
                        found,
                    );
                } else {
                    let with = found.push(id);
                    assert(lies_below(tree, folder, id, down)) by {
                        assert(entries[at] == EntryView::File(id, name));
                    }
                    assert(with.subrange(0, found.len() as int) =~= found);
                    if found.len() + 1 < MAX_PDFS {
                        lemma_entries_files_lie_below(
                            tree,
                            folder,
                            entries,
                            at + 1,
                            path,
                            depth,
                            with,
                        );
                        if let Ok(more) = entries_files(tree, left.skip(1), path, depth, with) {
                            assert forall|k: int| 0 <= k < with.len() implies more[k]
                                == with[k] by {
                                assert(more.subrange(0, with.len() as int)[k] == with[k]);
                            }
                            assert(more.subrange(0, found.len() as int) =~= found);
                        }
                    }
                }
            },
            EntryView::Other => {
                lemma_entries_files_lie_below(tree, folder, entries, at + 1, path, depth, found);
            },
        }
    } else {
        assert(found.subrange(0, found.len() as int) =~= found);
    }
}

/// Every file that a walk finds is a PDF file in its folder or below it, and no folder on the way
/// to it is hidden.
pub proof fn a_walk_finds_pdf_files(tree: Tree, id: usize, path: Seq<char>, k: int)
    requires
        folder_files(tree, id, path, 0, Seq::empty()) matches Ok(more) && 0 <= k < more.len(),
    ensures
        lies_below(
            tree,
            id,
            folder_files(tree, id, path, 0, Seq::empty())->Ok_0[k],
            MAX_DEPTH as nat,
        ),
{
    lemma_folder_files_lie_below(tree, id, path, 0, Seq::empty());
}

proof fn lemma_folder_files_complete(
    tree: Tree,
    id: usize,
    path: Seq<char>,
    depth: nat,
    found: Seq<usize>,
    file: usize,
)
    requires
        depth <= MAX_DEPTH,
        lies_below(tree, id, file, (MAX_DEPTH - depth) as nat),
    ensures
        folder_files(tree, id, path, depth, found) matches Ok(more) ==> more.len() < MAX_PDFS
            ==> more.contains(file),
    decreases MAX_DEPTH + 1 - depth, 1int, 0nat,
{
    let down = (MAX_DEPTH - depth) as nat;
    if let Ok(entries) = tree(id) {
        let i = choose|i: int|
            0 <= i < entries.len() && leads_to(tree, #[trigger] entries[i], file, down);
        assert(0 <= i < entries.len() && leads_to(tree, entries[i], file, down)) by {
            let j = choose|j: int|
                0 <= j < entries.len() && match #[trigger] entries[j] {
                    EntryView::File(id, name) => id == file && is_pdf_file(name),
                    EntryView::Folder(id, _, name) => !is_skipped(name) && down > 0 && lies_below(
                        tree,
                        id,
                        file,
                        (down - 1) as nat,
                    ),
                    _ => false,
                };
            assert(leads_to(tree, entries[j], file, down));
        }
        lemma_entries_files_complete(tree, id, entries, 0, path, depth, found, file, i);
        assert(entries.skip(0) =~= entries);
    }
}

proof fn lemma_entries_files_complete(
    tree: Tree,
    folder: usize,
    entries: Seq<EntryView>,
    at: int,
    path: Seq<char>,
    depth: nat,
    found: Seq<usize>,
    file: usize,
    i: int,
)
    requires
        depth <= MAX_DEPTH,
        tree(folder) == Ok::<Seq<EntryView>, Seq<char>>(entries),
        0 <= at <= i < entries.len(),
        leads_to(tree, entries[i], file, (MAX_DEPTH - depth) as nat),
    ensures
        entries_files(tree, entries.skip(at), path, depth, found) matches Ok(more) ==> more.len()
            < MAX_PDFS ==> more.contains(file),
    decreases MAX_DEPTH + 1 - depth, 0int, entries.len() - at,
{
    let left = entries.skip(at);
    assert(left[0] == entries[at]);
    assert(left.skip(1) =~= entries.skip(at + 1));
    lemma_entries_files_lie_below(tree, folder, entries, at, path, depth, found);
    match entries[at] {
        EntryView::Unreadable(_) => {},
        EntryView::Untyped(_, _) => {},
        EntryView::Folder(id, there, name) => {
            if is_skipped(name) || depth >= MAX_DEPTH || found.len() >= MAX_PDFS {
                if at < i {
                    lemma_entries_files_complete(
                        tree,
                        folder,
                        entries,
                        at + 1,
                        path,
                        depth,
                        found,
                        file,
                        i,
                    );
                }
            } else if let Ok(deep) = folder_files(tree, id, there, depth + 1, found) {
                lemma_entries_files_lie_below(tree, folder, entries, at + 1, path, depth, deep);
                if at < i {
                    lemma_entries_files_complete(
                        tree,
                        folder,
                        entries,
                        at + 1,
                        path,
                        depth,
                        deep,
                        file,
                        i,
                    );
                } else {
                    lemma_folder_files_complete(tree, id, there, depth + 1, found, file);
                    if let Ok(more) = entries_files(tree, left.skip(1), path, depth, deep) {
                        if more.len() < MAX_PDFS {
                            lemma_prefix_contains(deep, more, file);
                        }
                    }
                }
            }
        },
        EntryView::File(id, name) => {
            let with = if is_pdf_file(name) {
                found.push(id)
            } else {
                found
            };
            if with.len() < MAX_PDFS || !is_pdf_file(name) {
                lemma_entries_files_lie_below(tree, folder, entries, at + 1, path, depth, with);
                if at < i {
                    lemma_entries_files_complete(
                        tree,
                        folder,
                        entries,
                        at + 1,
                        path,
                        depth,
                        with,
                        file,
                        i,
                    );
                } else if let Ok(more) = entries_files(tree, left.skip(1), path, depth, with) {
                    assert(with[found.len() as int] == file);
                    lemma_prefix_contains(with, more, file);
                }
            }
        },
        EntryView::Other => {
            lemma_entries_files_complete(
                tree,
                folder,
                entries,
                at + 1,
                path,
                depth,
                found,
                file,
                i,
            );
        },
    }
}

proof fn lemma_prefix_contains(a: Seq<usize>, b: Seq<usize>, file: usize)
    requires
        a.is_prefix_of(b),
        a.contains(file),
    ensures
        b.contains(file),
{
    let k = choose|k: int| 0 <= k < a.len() && a[k] == file;
    assert(b.subrange(0, a.len() as int)[k] == b[k]);
}

/// A walk that ends before it has found enough has missed nothing: it has found every PDF file in
/// its folder or below it, as deep as it goes, but for those in folders that are left out.
pub proof fn a_walk_misses_no_file(tree: Tree, id: usize, path: Seq<char>, file: usize)
    requires
        folder_files(tree, id, path, 0, Seq::empty()) matches Ok(more) && more.len() < MAX_PDFS,
        lies_below(tree, id, file, MAX_DEPTH as nat),
    ensures
        folder_files(tree, id, path, 0, Seq::empty())->Ok_0.contains(file),
{
    lemma_folder_files_complete(tree, id, path, 0, Seq::empty(), file);
}

/// A file that was found, with the components of its path.
#[derive(Debug, Clone)]
pub struct FoundFile {
    pub id: usize,
    pub components: Vec<String>,
}

pub struct FoundView {
    pub id: usize,
    pub components: Seq<Seq<char>>,
}

impl View for FoundFile {
    type V = FoundView;

    open spec fn view(&self) -> FoundView {
        FoundView { id: self.id, components: text::views(self.components@) }
    }
}

/// Whether a path comes no later than another one: the first component in which they differ
/// decides, and where one begins with the other, the shorter one comes first.
pub open spec fn path_no_later(a: Seq<Seq<char>>, b: Seq<Seq<char>>) -> bool
    decreases a.len(),
{
    if a.len() == 0 {
        true
    } else if b.len() == 0 {
        false
    } else if a[0] != b[0] {
        ranking::text_no_later(a[0], b[0])
    } else {
        path_no_later(a.skip(1), b.skip(1))
    }
}

proof fn lemma_path_total(a: Seq<Seq<char>>, b: Seq<Seq<char>>)
    ensures
        path_no_later(a, b) || path_no_later(b, a),
        path_no_later(a, b) && path_no_later(b, a) ==> a == b,
    decreases a.len(),
{
    if a.len() > 0 && b.len() > 0 {
        ranking::lemma_text_total(a[0], b[0]);
        if a[0] == b[0] {
            lemma_path_total(a.skip(1), b.skip(1));
            assert(a =~= seq![a[0]] + a.skip(1));
            assert(b =~= seq![b[0]] + b.skip(1));
        }
    } else if path_no_later(a, b) && path_no_later(b, a) {
        assert(a =~= b);
    }
}

proof fn lemma_path_transitive(a: Seq<Seq<char>>, b: Seq<Seq<char>>, c: Seq<Seq<char>>)
    requires
        path_no_later(a, b),
        path_no_later(b, c),
    ensures
        path_no_later(a, c),
    decreases a.len(),
{
    if a.len() > 0 {
        if a[0] == b[0] && b[0] == c[0] {
            lemma_path_transitive(a.skip(1), b.skip(1), c.skip(1));
        } else if a[0] != b[0] && b[0] != c[0] {
            ranking::lemma_text_transitive(a[0], b[0], c[0]);
            ranking::lemma_text_total(a[0], b[0]);
        }
    }
}

fn is_path_no_later(a: &[String], b: &[String]) -> (r: bool)
    ensures
        r == path_no_later(text::views(a@), text::views(b@)),
{
    let ghost x = text::views(a@);
    let ghost y = text::views(b@);
    let mut i: usize = 0;
    proof {
        assert(x.skip(0) =~= x);
        assert(y.skip(0) =~= y);
    }
    while i < a.len() && i < b.len()
        invariant
            x == text::views(a@),
            y == text::views(b@),
            i <= a@.len(),
            i <= b@.len(),
            path_no_later(x, y) == path_no_later(x.skip(i as int), y.skip(i as int)),
        decreases a@.len() - i,
    {
        let ghost p = x.skip(i as int);
        let ghost q = y.skip(i as int);
        assert(p[0] == a@[i as int]@ && q[0] == b@[i as int]@);
        if !text::same_text(a[i].as_str(), b[i].as_str()) {
            return ranking::is_text_no_later(a[i].as_str(), b[i].as_str());
        }
        assert(p.skip(1) =~= x.skip(i + 1));
        assert(q.skip(1) =~= y.skip(i + 1));
        i += 1;
    }
    i == a.len()
}

impl Ranked for FoundFile {
    open spec fn no_later(a: FoundView, b: FoundView) -> bool {
        path_no_later(a.components, b.components)
    }

    proof fn total(a: FoundView, b: FoundView) {
        lemma_path_total(a.components, b.components);
    }

    proof fn transitive(a: FoundView, b: FoundView, c: FoundView) {
        lemma_path_transitive(a.components, b.components, c.components);
    }

    fn is_no_later(&self, other: &FoundFile) -> (r: bool) {
        is_path_no_later(self.components.as_slice(), other.components.as_slice())
    }
}

/// The files that were found, in the order of their paths.
pub fn in_path_order(files: Vec<FoundFile>) -> (r: Vec<FoundFile>)
    ensures
        ranking::in_order::<FoundFile>(order::seen(r@)),
        order::seen(r@).to_multiset() == order::seen(files@).to_multiset(),
{
    ranking::sort(files)
}

/// Files in the order of their paths, no two of which share one, stand strictly in order: each
/// comes before all that stand behind it.
pub proof fn paths_strictly_increase(files: Seq<FoundView>, i: int, j: int)
    requires
        ranking::in_order::<FoundFile>(files),
        0 <= i < j < files.len(),
        files[i].components != files[j].components,
    ensures
        path_no_later(files[i].components, files[j].components),
        !path_no_later(files[j].components, files[i].components),
{
    assert(FoundFile::no_later(files[i], files[j]));
    lemma_path_total(files[i].components, files[j].components);
}

/// The first component in which two paths differ decides between them, and a folder comes before all
/// that lies in it.
pub proof fn the_first_component_decides(
    common: Seq<Seq<char>>,
    a: Seq<char>,
    b: Seq<char>,
    behind_a: Seq<Seq<char>>,
    behind_b: Seq<Seq<char>>,
)
    ensures
        a != b ==> path_no_later(common.push(a) + behind_a, common.push(b) + behind_b)
            == ranking::text_no_later(a, b),
        path_no_later(common, common + behind_a),
        behind_a.len() > 0 ==> !path_no_later(common + behind_a, common),
    decreases common.len(),
{
    let x = common.push(a) + behind_a;
    let y = common.push(b) + behind_b;
    let z = common + behind_a;
    if common.len() > 0 {
        let rest = common.skip(1);
        the_first_component_decides(rest, a, b, behind_a, behind_b);
        assert(x.skip(1) =~= rest.push(a) + behind_a);
        assert(y.skip(1) =~= rest.push(b) + behind_b);
        assert(z.skip(1) =~= rest + behind_a);
        assert(x[0] == common[0] && y[0] == common[0] && z[0] == common[0]);
    } else {
        assert(x[0] == a && y[0] == b);
    }
}

/// A folder is left out where its name begins with a dot or is `target`, and only there; a file is
/// looked for where its name ends in `.pdf`, in small or capital letters.
pub proof fn names_decide_what_is_looked_at(name: Seq<char>)
    ensures
        is_skipped(seq!['.'] + name),
        is_skipped("target"@),
        name.len() > 0 && name[0] != '.' && name != "target"@ ==> !is_skipped(name),
        is_pdf_file(name) <==> {
            let n = name.len() as int;
            &&& n > 4
            &&& name[n - 4] == '.'
            &&& name[n - 3] == 'p' || name[n - 3] == 'P'
            &&& name[n - 2] == 'd' || name[n - 2] == 'D'
            &&& name[n - 1] == 'f' || name[n - 1] == 'F'
        },
{
    paths::pdf_files_end_in_pdf(name);
}

/// What is found among entries: a PDF file is added, another file is not; a folder adds what is
/// found among its entries, unless it is left out or lies too deep; what cannot be read ends the walk
/// with its path and why.
pub proof fn entries_add_what_they_are(
    tree: Tree,
    entry: EntryView,
    folder: usize,
    path: Seq<char>,
    depth: nat,
    found: Seq<usize>,
)
    requires
        depth <= 12,
        found.len() < 2000,
    ensures
        match entry {
            EntryView::File(id, name) => entries_files(tree, seq![entry], path, depth, found) == Ok::<
                Seq<usize>,
                Seq<char>,
            >(
                if is_pdf_file(name) {
                    found.push(id)
                } else {
                    found
                },
            ),
            EntryView::Folder(id, at, name) => entries_files(tree, seq![entry], path, depth, found)
                == if is_skipped(name) || depth == 12 {
                Ok::<Seq<usize>, Seq<char>>(found)
            } else {
                folder_files(tree, id, at, depth + 1, found)
            },
            EntryView::Other => entries_files(tree, seq![entry], path, depth, found) == Ok::<
                Seq<usize>,
                Seq<char>,
            >(found),
            EntryView::Unreadable(err) => entries_files(tree, seq![entry], path, depth, found)
                == Err::<Seq<usize>, Seq<char>>(path + ": "@ + err),
            EntryView::Untyped(at, err) => entries_files(tree, seq![entry], path, depth, found)
                == Err::<Seq<usize>, Seq<char>>(at + ": "@ + err),
        },
        match tree(folder) {
            Ok(entries) => folder_files(tree, folder, path, depth, found) == entries_files(
                tree,
                entries,
                path,
                depth,
                found,
            ),
            Err(err) => folder_files(tree, folder, path, depth, found) == Err::<Seq<usize>, Seq<char>>(
                path + ": "@ + err,
            ),
        },
{
    reveal_with_fuel(entries_files, 2);
    assert(seq![entry].skip(1) =~= Seq::empty());
}

/// Entries are gone through one after another, as long as not enough has been found.
pub proof fn entries_are_gone_through_in_order(
    tree: Tree,
    a: Seq<EntryView>,
    b: Seq<EntryView>,
    path: Seq<char>,
    depth: nat,
    found: Seq<usize>,
)
    requires
        depth <= 12,
    ensures
        match entries_files(tree, a, path, depth, found) {
            Ok(more) => more.len() < 2000 ==> entries_files(tree, a + b, path, depth, found)
                == entries_files(tree, b, path, depth, more),
            Err(err) => entries_files(tree, a + b, path, depth, found) == Err::<
                Seq<usize>,
                Seq<char>,
            >(err),
        },
    decreases a.len(),
{
    if a.len() == 0 {
        assert(a + b =~= b);
    } else {
        let rest = a.skip(1);
        assert((a + b).skip(1) =~= rest + b);
        assert((a + b)[0] == a[0]);
        match a[0] {
            EntryView::Unreadable(_) => {},
            EntryView::Untyped(_, _) => {},
            EntryView::Folder(id, at, name) => {
                if is_skipped(name) || depth >= MAX_DEPTH || found.len() >= MAX_PDFS {
                    entries_are_gone_through_in_order(tree, rest, b, path, depth, found);
                } else if let Ok(more) = folder_files(tree, id, at, depth + 1, found) {
                    entries_are_gone_through_in_order(tree, rest, b, path, depth, more);
                }
            },
            EntryView::File(id, name) => {
                if !is_pdf_file(name) {
                    entries_are_gone_through_in_order(tree, rest, b, path, depth, found);
                } else if found.len() + 1 < MAX_PDFS {
                    entries_are_gone_through_in_order(tree, rest, b, path, depth, found.push(id));
                }
            },
            EntryView::Other => {
                entries_are_gone_through_in_order(tree, rest, b, path, depth, found);
            },
        }
    }
}

/// Entries stand for what they hold, one after another, and a file that was found for its number and
/// the components of its path.
pub proof fn entries_stand_for_what_they_hold(
    id: usize,
    path: String,
    name: String,
    entries: Seq<Entry>,
    found: FoundFile,
)
    ensures
        (Entry::Folder { id, path, name })@ == EntryView::Folder(id, path@, name@),
        (Entry::File { id, name })@ == EntryView::File(id, name@),
        (Entry::Untyped { path, err: name })@ == EntryView::Untyped(path@, name@),
        Entry::Unreadable(name)@ == EntryView::Unreadable(name@),
        entry_views(entries).len() == entries.len(),
        forall|i: int| 0 <= i < entries.len() ==> #[trigger] entry_views(entries)[i] == entries[i]@,
        found@.id == found.id,
        found@.components == text::views(found.components@),
{
}

} // verus!
