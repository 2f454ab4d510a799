//! The names of the files in a folder.
use crate::order;
use crate::ranking;
use crate::text;
use vstd::prelude::*;

verus! {

/// What a folder holds under a name.
#[derive(Debug, Clone)]
pub struct FolderEntry {
    pub name: String,
    pub is_file: bool,
}

/// The names of the files among the entries.
pub open spec fn file_names(entries: Seq<FolderEntry>) -> Seq<Seq<char>>
    decreases entries.len(),
{
    if entries.len() == 0 {
        Seq::empty()
    } else {
        let before = file_names(entries.drop_last());
        if entries.last().is_file {
            before.push(entries.last().name@)
        } else {
            before
        }
    }
}

/// The names of the files in a folder, in their order.
pub fn list_files_in_folder(entries: Vec<FolderEntry>) -> (r: Vec<String>)
    ensures
        ranking::in_order::<String>(text::views(r@)),
        text::views(r@).to_multiset() == file_names(entries@).to_multiset(),
{
    let ghost all = entries@;
    let mut names: Vec<String> = Vec::new();
    assert(text::views(names@) =~= file_names(all.take(0)));
    for entry in it: entries
        invariant
            all == it.seq(),
            text::views(names@) == file_names(all.take(it.index())),
    {
        proof {
            let n = it.index();
            assert(all.take(n + 1).drop_last() =~= all.take(n));
            assert(all.take(n + 1).last() == entry);
        }
        if entry.is_file {
            let ghost before = names@;
            let ghost name = entry.name@;
            names.push(entry.name);
            assert(text::views(names@) =~= text::views(before).push(name));
        }
    }
    assert(all.take(all.len() as int) =~= all);
    let ghost found = names@;
    let r = ranking::sort(names);
    assert(text::views(found) =~= order::seen(found));
    assert(text::views(r@) =~= order::seen(r@));
    r
}

/// The names of the files in a folder are those of its entries, one after another; folders have none.
pub proof fn only_files_are_listed(a: Seq<FolderEntry>, b: Seq<FolderEntry>, entry: FolderEntry)
    ensures
        file_names(a + b) == file_names(a) + file_names(b),
        entry.is_file ==> file_names(seq![entry]) == seq![entry.name@],
        !entry.is_file ==> file_names(seq![entry]).len() == 0,
    decreases b.len(),
{
    reveal_with_fuel(file_names, 2);
    assert(seq![entry].drop_last() =~= Seq::empty());
    if entry.is_file {
        assert(file_names(seq![entry]) =~= seq![entry.name@]);
    }
    if b.len() == 0 {
        assert(a + b =~= a);
        assert(file_names(a) + file_names(b) =~= file_names(a));
    } else {
        only_files_are_listed(a, b.drop_last(), entry);
        assert((a + b).drop_last() =~= a + b.drop_last());
        assert((a + b).last() == b.last());
        assert(file_names(a + b) =~= file_names(a) + file_names(b));
    }
}

} // verus!
