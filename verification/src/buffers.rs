use vstd::prelude::*;
use vstd::string::StringExecFns;
use crate::seqs::{lemma_filter_distinct, lemma_filter_members, lemma_filter_prefix};

verus! {

/// A saved reference to a file, shown under a label the user chose.
pub struct PinnedBuffer {
    pub path: String,
    pub label: String,
}

/// The mathematical value of a [`PinnedBuffer`].
pub ghost struct PinnedBufferView {
    pub path: Seq<char>,
    pub label: Seq<char>,
}

impl View for PinnedBuffer {
    type V = PinnedBufferView;

    open spec fn view(&self) -> PinnedBufferView {
        PinnedBufferView { path: self.path@, label: self.label@ }
    }
}

impl DeepView for PinnedBuffer {
    type V = PinnedBufferView;

    open spec fn deep_view(&self) -> PinnedBufferView {
        self@
    }
}

impl Clone for PinnedBuffer {
    fn clone(&self) -> (res: Self)
        ensures
            res@ == self@,
    {
        PinnedBuffer { path: self.path.clone(), label: self.label.clone() }
    }
}

/// The test that a path is another one than `path`.
pub open spec fn other_than(path: Seq<char>) -> spec_fn(Seq<char>) -> bool {
    |p: Seq<char>| p != path
}

/// The paths of `files` other than `path`, in their order.
pub open spec fn without(files: Seq<Seq<char>>, path: Seq<char>) -> Seq<Seq<char>> {
    files.filter(other_than(path))
}

/// The first `limit` paths of `files`. A negative limit stands for no limit.
pub open spec fn capped(files: Seq<Seq<char>>, limit: int) -> Seq<Seq<char>> {
    if 0 <= limit < files.len() {
        files.take(limit)
    } else {
        files
    }
}

/// The lines with one line feed between each two neighbours.
pub open spec fn joined(lines: Seq<Seq<char>>) -> Seq<char>
    decreases lines.len(),
{
    if lines.len() == 0 {
        Seq::empty()
    } else if lines.len() == 1 {
        lines[0]
    } else {
        joined(lines.drop_last()) + seq!['\n'] + lines.last()
    }
}

/// The most recently used files, newest first.
pub struct RecentFiles {
    pub files: Vec<String>,
    /// The number of paths that are kept when the list is saved. A negative
    /// limit keeps all of them.
    pub limit: i32,
    /// While this is off, `add` and `remove` leave the list alone.
    pub enabled: bool,
}

/// The mathematical value of a [`RecentFiles`].
pub ghost struct RecentFilesView {
    pub files: Seq<Seq<char>>,
    pub limit: int,
    pub enabled: bool,
}

impl RecentFilesView {
    /// The list as `save` leaves it: cut down to the limit.
    pub open spec fn save(self) -> RecentFilesView {
        RecentFilesView { files: capped(self.files, self.limit), ..self }
    }

    /// The list as `add` leaves it: `path` moves or comes to the front, and
    /// the list is saved. A disabled list stays as it is.
    pub open spec fn add(self, path: Seq<char>) -> RecentFilesView {
        if self.enabled {
            RecentFilesView { files: seq![path] + without(self.files, path), ..self }.save()
        } else {
            self
        }
    }

    /// The list as `remove` leaves it: `path` is gone, and the list is
    /// saved. A disabled list stays as it is.
    pub open spec fn remove(self, path: Seq<char>) -> RecentFilesView {
        if self.enabled {
            RecentFilesView { files: without(self.files, path), ..self }.save()
        } else {
            self
        }
    }

    /// The list after the paths of `paths` were added one after the other.
    pub open spec fn add_all(self, paths: Seq<Seq<char>>) -> RecentFilesView
        decreases paths.len(),
    {
        if paths.len() == 0 {
            self
        } else {
            self.add_all(paths.drop_last()).add(paths.last())
        }
    }
}

impl View for RecentFiles {
    type V = RecentFilesView;

    open spec fn view(&self) -> RecentFilesView {
        RecentFilesView {
            files: self.files.deep_view(),
            limit: self.limit as int,
            enabled: self.enabled,
        }
    }
}

/// Saving never makes a list longer than its limit, where it has one.
pub proof fn lemma_save_within_limit(list: RecentFilesView)
    requires
        0 <= list.limit,
    ensures
        list.save().files.len() <= list.limit,
        list.save().save() == list.save(),
{
}

/// A list without repetition has none after `add`, and then holds `path`
/// once, at the front, unless its limit is 0.
pub proof fn lemma_add_keeps_distinct(list: RecentFilesView, path: Seq<char>)
    requires
        list.files.no_duplicates(),
    ensures
        list.add(path).files.no_duplicates(),
        list.enabled && list.limit != 0 ==> list.add(path).files[0] == path,
{
    if list.enabled {
        let rest = without(list.files, path);
        let all = seq![path] + rest;
        lemma_filter_distinct(list.files, other_than(path));
        lemma_filter_members(list.files, other_than(path));
        assert forall|i: int, j: int| 0 <= i < all.len() && 0 <= j < all.len() && i != j implies all[i]
            != all[j] by {
            if i > 0 {
                assert(rest.contains(rest[i - 1]));
            }
            if j > 0 {
                assert(rest.contains(rest[j - 1]));
            }
        }
    }
}

/// A list without repetition has none after `remove`, and no longer holds
/// `path`.
pub proof fn lemma_remove_keeps_distinct(list: RecentFilesView, path: Seq<char>)
    requires
        list.files.no_duplicates(),
    ensures
        list.remove(path).files.no_duplicates(),
        list.enabled ==> !list.remove(path).files.contains(path),
{
    if list.enabled {
        let rest = without(list.files, path);
        lemma_filter_distinct(list.files, other_than(path));
        lemma_filter_members(list.files, other_than(path));
        let kept = list.remove(path).files;
        if kept.contains(path) {
            let i = choose|i: int| 0 <= i < kept.len() && kept[i] == path;
            assert(rest[i] == path);
            assert(rest.contains(path));
        }
    }
}

/// After distinct paths were added to an enabled list with a limit, the
/// list starts with the newest of them, newest first, as far as the limit
/// allows, and is no longer than the limit once a path was added.
pub proof fn lemma_add_all_front(list: RecentFilesView, paths: Seq<Seq<char>>)
    requires
        list.enabled,
        0 <= list.limit,
        paths.no_duplicates(),
    ensures
        list.add_all(paths).enabled,
        list.add_all(paths).limit == list.limit,
        paths.len() > 0 ==> list.add_all(paths).files.len() <= list.limit,
        paths.len() <= list.add_all(paths).files.len() || list.limit <= list.add_all(
            paths,
        ).files.len(),
        forall|j: int|
            0 <= j < paths.len() && j < list.limit ==> #[trigger] list.add_all(paths).files[j]
                == paths[paths.len() - 1 - j],
    decreases paths.len(),
{
    if paths.len() > 0 {
        let n = paths.len() as int;
        let earlier = paths.drop_last();
        let newest = paths.last();
        lemma_add_all_front(list, earlier);
        let before = list.add_all(earlier);
        let m = if n - 1 < list.limit { n - 1 } else { list.limit };
        let differs = other_than(newest);
        assert forall|i: int| 0 <= i < m implies differs(#[trigger] before.files[i]) by {
            assert(before.files[i] == earlier[n - 2 - i]);
            assert(earlier[n - 2 - i] == paths[n - 2 - i]);
        }
        lemma_filter_prefix(before.files, differs, m);
        let grown = seq![newest] + without(before.files, newest);
        assert forall|j: int| 0 <= j < n && j < list.limit implies #[trigger] list.add_all(
            paths,
        ).files[j] == paths[n - 1 - j] by {
            if j > 0 {
                assert(without(before.files, newest)[j - 1] == before.files.take(m)[j - 1]);
                assert(before.files[j - 1] == earlier[n - 1 - j]);
            }
        }
    }
}

/// Cap enforcement: after more distinct paths than the limit were added to
/// an enabled list, the list holds exactly the newest `limit` of them,
/// newest first.
pub proof fn lemma_add_all_capped(list: RecentFilesView, paths: Seq<Seq<char>>)
    requires
        list.enabled,
        0 <= list.limit < paths.len(),
        paths.no_duplicates(),
    ensures
        list.add_all(paths).files == Seq::new(
            list.limit as nat,
            |j: int| paths[paths.len() - 1 - j],
        ),
{
    lemma_add_all_front(list, paths);
    assert(list.add_all(paths).files =~= Seq::new(
        list.limit as nat,
        |j: int| paths[paths.len() - 1 - j],
    ));
}

/// The strings of `files` other than `path`, in their order.
fn others(files: Vec<String>, path: &String) -> (kept: Vec<String>)
    ensures
        kept.deep_view() == without(files.deep_view(), path@),
{
    let ghost all = files.deep_view();
    let ghost differs = other_than(path@);
    let mut kept: Vec<String> = Vec::new();
    assert(all.take(0) =~= Seq::<Seq<char>>::empty());
    assert(kept.deep_view() =~= Seq::<Seq<char>>::empty());
    proof {
        reveal(Seq::filter);
    }
    for file in it: files
        invariant
            all == files.deep_view(),
            it.seq() == files@,
            differs == other_than(path@),
            kept.deep_view() == all.take(it.index() as int).filter(differs),
    {
        let ghost i = it.index() as int;
        let ghost before = kept.deep_view();
        proof {
            assert(all.take(i + 1) =~= all.take(i).push(all[i]));
            all.take(i).lemma_filter_push(all[i], differs);
        }
        if file != *path {
            kept.push(file);
            assert(kept.deep_view() =~= before.push(all[i]));
        }
    }
    assert(all.take(files.len() as int) =~= all);
    kept
}

impl RecentFiles {
    /// A list that holds `files`, newest first, and is enabled.
    pub fn new(files: Vec<String>, limit: i32) -> (recent: Self)
        ensures
            recent@ == (RecentFilesView { files: files.deep_view(), limit: limit as int, enabled: true }),
    {
        RecentFiles { files, limit, enabled: true }
    }

    /// Moves `file_path` to the front of the list, or puts it there, and
    /// saves the list. Returns the text to store, or `None` where the list is
    /// disabled and nothing changed.
    pub fn add(&mut self, file_path: String) -> (stored: Option<String>)
        ensures
            final(self)@ == old(self)@.add(file_path@),
            stored is Some == old(self).enabled,
            stored matches Some(text) ==> text@ == joined(final(self)@.files),
    {
        if !self.enabled {
            return None;
        }
        let mut held: Vec<String> = Vec::new();
        core::mem::swap(&mut self.files, &mut held);
        let mut files = others(held, &file_path);
        let ghost rest = files.deep_view();
        files.insert(0, file_path);
        assert(files.deep_view() =~= seq![file_path@] + rest);
        self.files = files;
        Some(self.save())
    }

    /// Takes `file_path` off the list and saves the list. Returns the text
    /// to store, or `None` where the list is disabled and nothing changed.
    pub fn remove(&mut self, file_path: String) -> (stored: Option<String>)
        ensures
            final(self)@ == old(self)@.remove(file_path@),
            stored is Some == old(self).enabled,
            stored matches Some(text) ==> text@ == joined(final(self)@.files),
    {
        if !self.enabled {
            return None;
        }
        let mut held: Vec<String> = Vec::new();
        core::mem::swap(&mut self.files, &mut held);
        self.files = others(held, &file_path);
        Some(self.save())
    }

    /// The paths of the list, newest first.
    pub fn list(&self) -> (files: Vec<String>)
        ensures
            files.deep_view() == self@.files,
    {
        let files = self.files.clone();
        assert(files.deep_view() =~= self.files.deep_view());
        files
    }

    /// Switches `add` and `remove` on or off.
    pub fn set_enabled(&mut self, enabled: bool)
        ensures
            final(self)@ == (RecentFilesView { enabled, ..old(self)@ }),
    {
        self.enabled = enabled;
    }

    /// Cuts the list down to its limit and returns the text to store: the
    /// paths that are left, newest first, one per line.
    pub fn save(&mut self) -> (text: String)
        ensures
            final(self)@ == old(self)@.save(),
            text@ == joined(final(self)@.files),
    {
        if self.limit >= 0 && self.files.len() > self.limit as usize {
            let ghost before = self.files.deep_view();
            self.files.truncate(self.limit as usize);
            assert(self.files.deep_view() =~= before.take(self.limit as int));
        }
        let ghost lines = self.files.deep_view();
        let mut text = String::new();
        let mut i: usize = 0;
        assert(lines.take(0) =~= Seq::<Seq<char>>::empty());
        while i < self.files.len()
            invariant
                i <= self.files.len(),
                lines == self.files.deep_view(),
                text@ == joined(lines.take(i as int)),
            decreases self.files.len() - i,
        {
            proof {
                reveal_strlit("\n");
                assert(lines.take(i + 1).drop_last() =~= lines.take(i as int));
                assert("\n"@ =~= seq!['\n']);
            }
            if i > 0 {
                text.append("\n");
            }
            text.append(self.files[i].as_str());
            assert(text@ =~= joined(lines.take(i + 1)));
            i += 1;
        }
        assert(lines.take(self.files.len() as int) =~= lines);
        text
    }
}

} // verus!
