use rtools::listing::{list_files_in_folder, FolderEntry};
use rtools::walk::{
    collect_pdfs, in_path_order, Entry, FoundFile, WalkStep, MAX_DEPTH, MAX_PDFS,
};

fn folder(id: usize, name: &str) -> Entry {
    Entry::Folder { id, path: format!("/{name}"), name: name.into() }
}

fn file(id: usize) -> Entry {
    Entry::File { id, name: format!("{id}.pdf") }
}

fn walk(
    listing: impl Fn(usize) -> Result<Vec<Entry>, String>,
) -> (Result<Vec<usize>, String>, Vec<usize>) {
    let (mut walk, mut step) = collect_pdfs(0, "/root".into());
    let mut read = Vec::new();
    loop {
        match step {
            WalkStep::Read { id, path, depth } => {
                read.push(id);
                step = walk.walk_pdfs(path, depth, listing(id));
            }
            WalkStep::Done => return (Ok(walk.found()), read),
            WalkStep::Failed(err) => return (Err(err), read),
        }
    }
}

#[test]
fn folders_are_walked_where_they_stand() {
    let (found, read) = walk(|id| match id {
        0 => Ok(vec![file(1), folder(2, "a"), file(3), folder(4, "b")]),
        2 => Ok(vec![file(5), folder(6, "c")]),
        6 => Ok(vec![file(7), Entry::Other, Entry::File { id: 8, name: "8.txt".into() }]),
        4 => Ok(Vec::new()),
        _ => panic!("{id}"),
    });
    assert_eq!(found, Ok(vec![1, 5, 7, 3]));
    assert_eq!(read, vec![0, 2, 6, 4]);
}

#[test]
fn hidden_folders_are_left_out() {
    let (found, read) = walk(|id| match id {
        0 => Ok(vec![folder(1, ".git"), folder(2, "target"), folder(3, "targets"), file(4)]),
        3 => Ok(vec![file(5)]),
        _ => panic!("{id}"),
    });
    assert_eq!(found, Ok(vec![5, 4]));
    assert_eq!(read, vec![0, 3]);
}

#[test]
fn failures_end_the_walk() {
    let (found, _) = walk(|_| Err("denied".into()));
    assert_eq!(found, Err("/root: denied".into()));
    let (found, _) = walk(|_| Ok(vec![file(1), Entry::Unreadable("bad".into())]));
    assert_eq!(found, Err("/root: bad".into()));
    let (found, _) = walk(|_| {
        Ok(vec![Entry::Untyped { path: "/root/x".into(), err: "odd".into() }])
    });
    assert_eq!(found, Err("/root/x: odd".into()));
    let (found, _) = walk(|id| match id {
        0 => Ok(vec![folder(1, "a"), file(2)]),
        _ => Err("deep".into()),
    });
    assert_eq!(found, Err("/a: deep".into()));
}

#[test]
fn the_walk_goes_only_so_deep() {
    let (found, read) = walk(|id| Ok(vec![folder(id + 1, "n"), file(id)]));
    assert_eq!(read.len(), MAX_DEPTH + 1);
    assert_eq!(found.unwrap().len(), MAX_DEPTH + 1);
}

#[test]
fn enough_files_end_a_folder() {
    let (found, read) = walk(|id| match id {
        0 => Ok(vec![folder(1, "a"), folder(2, "b"), file(9), file(10)]),
        1 => Ok((0..MAX_PDFS + 5).map(|_| file(1)).collect()),
        _ => panic!("{id}"),
    });
    let found = found.unwrap();
    assert_eq!(found.len(), MAX_PDFS + 1);
    assert_eq!(found[MAX_PDFS], 9);
    assert_eq!(read, vec![0, 1]);
}

#[test]
fn names_of_files_are_sorted() {
    let entry = |name: &str, is_file: bool| FolderEntry { name: name.into(), is_file };
    let names = list_files_in_folder(vec![
        entry("b.txt", true),
        entry("sub", false),
        entry("あ.pdf", true),
        entry("B.txt", true),
        entry("b", true),
        entry("", true),
        entry("b.txt", true),
        entry("\u{1f600}", true),
    ]);
    assert_eq!(names, ["", "B.txt", "b", "b.txt", "b.txt", "あ.pdf", "\u{1f600}"]);
    let mut sorted = names.clone();
    sorted.sort();
    assert_eq!(names, sorted);
    assert!(list_files_in_folder(Vec::new()).is_empty());
}

#[test]
fn folders_on_the_way_back_may_add_a_file() {
    let (found, _) = walk(|id| {
        let mut entries = vec![folder(id + 1, "n")];
        if id == MAX_DEPTH {
            entries.extend((0..MAX_PDFS).map(|_| file(id)));
        } else {
            entries.extend([file(id), file(id)]);
        }
        Ok(entries)
    });
    assert_eq!(found.unwrap().len(), MAX_PDFS + MAX_DEPTH);
}

#[test]
fn files_are_taken_by_their_names() {
    let named = |id: usize, name: &str| Entry::File { id, name: name.into() };
    let (found, _) = walk(|_| {
        Ok(vec![
            named(1, "a.PDF"),
            named(2, "b.pdf.txt"),
            named(3, ".pdf"),
            named(4, "pdf"),
            named(5, "あ.Pdf"),
        ])
    });
    assert_eq!(found, Ok(vec![1, 5]));
}

#[test]
fn found_files_stand_in_the_order_of_their_paths() {
    let paths = ["/r/b.pdf", "/r/a/z.pdf", "/r/a.pdf", "/r/a/b/c.pdf", "/r/a-b/c.pdf", "/r/a"];
    let files = paths
        .iter()
        .enumerate()
        .map(|(id, path)| FoundFile {
            id,
            components: path.split('/').map(str::to_string).collect(),
        })
        .collect();
    let sorted: Vec<&str> = in_path_order(files).iter().map(|file| paths[file.id]).collect();
    let mut expected: Vec<std::path::PathBuf> = paths.iter().map(|path| path.into()).collect();
    expected.sort();
    assert_eq!(sorted.iter().map(std::path::PathBuf::from).collect::<Vec<_>>(), expected);
    assert_eq!(
        sorted,
        ["/r/a", "/r/a/b/c.pdf", "/r/a/z.pdf", "/r/a-b/c.pdf", "/r/a.pdf", "/r/b.pdf"]
    );
    assert!(in_path_order(Vec::new()).is_empty());
}

#[test]
fn every_file_below_is_found() {
    let (found, _) = walk(|id| {
        if id < 7 {
            Ok(vec![folder(2 * id + 1, "l"), file(100 + id), folder(2 * id + 2, "r")])
        } else {
            Ok(vec![file(100 + id)])
        }
    });
    let mut found = found.unwrap();
    found.sort();
    assert_eq!(found, (100..115).collect::<Vec<usize>>());
}
