use vstd::prelude::*;
use crate::buffers::{PinnedBuffer, PinnedBufferView};
use crate::marks::{GlobalMark, GlobalMarkView, LocalMark, LocalMarkView};
use crate::model::{
    bucket_with, buckets_in_order, first_at_line, global_elsewhere, global_updated,
    lemma_remove_global_absent, lemma_remove_local_absent, lemma_unpin_absent,
    lemma_update_global_idle, lemma_update_local_idle, line_taken, local_elsewhere, local_updated,
    number_of, pinned_at, pinned_elsewhere, text_of, StackView, StacksManagerView, StacksView,
};
use crate::seqs::{lemma_filter_drops_all, lemma_filter_full_length};
use crate::table::{lemma_map_of_index, lemma_pairs_of_distinct_keys, pairs_keys, pairs_map, Table};

verus! {

/// The values of the buckets of a table of global marks.
pub open spec fn bucket_views(buckets: Map<Seq<char>, Vec<GlobalMark>>) -> Map<
    Seq<char>,
    Seq<GlobalMarkView>,
> {
    Map::new(|k: Seq<char>| buckets.dom().contains(k), |k: Seq<char>| buckets[k].deep_view())
}

/// One named bucket of pinned buffers, local marks and global marks. The
/// global marks are kept in one bucket per path.
pub struct Stack {
    name: String,
    pinned_buffers: Vec<PinnedBuffer>,
    local_marks: Vec<LocalMark>,
    global_marks: Table<Vec<GlobalMark>>,
}

impl View for Stack {
    type V = StackView;

    closed spec fn view(&self) -> StackView {
        StackView {
            name: self.name@,
            pinned_buffers: self.pinned_buffers.deep_view(),
            local_marks: self.local_marks.deep_view(),
            global_marks: bucket_views(self.global_marks@),
        }
    }
}

impl DeepView for Stack {
    type V = StackView;

    open spec fn deep_view(&self) -> StackView {
        self@
    }
}

/// The buffers of `buffers` that are pinned for another path than `path`.
fn pinned_without(buffers: Vec<PinnedBuffer>, path: &String) -> (kept: Vec<PinnedBuffer>)
    ensures
        kept.deep_view() == buffers.deep_view().filter(pinned_elsewhere(path@)),
{
    let ghost all = buffers.deep_view();
    let ghost keep = pinned_elsewhere(path@);
    let mut kept: Vec<PinnedBuffer> = Vec::new();
    assert(all.take(0) =~= Seq::<PinnedBufferView>::empty());
    assert(kept.deep_view() =~= Seq::<PinnedBufferView>::empty());
    proof {
        reveal(Seq::filter);
    }
    for buffer in it: buffers
        invariant
            all == buffers.deep_view(),
            it.seq() == buffers@,
            keep == pinned_elsewhere(path@),
            kept.deep_view() == all.take(it.index() as int).filter(keep),
    {
        let ghost i = it.index() as int;
        let ghost before = kept.deep_view();
        proof {
            assert(all.take(i + 1) =~= all.take(i).push(all[i]));
            all.take(i).lemma_filter_push(all[i], keep);
        }
        if buffer.path != *path {
            kept.push(buffer);
            assert(kept.deep_view() =~= before.push(all[i]));
        }
    }
    assert(all.take(buffers.len() as int) =~= all);
    kept
}

/// The marks of `marks` that do not stand at `path` and `lineno`.
fn locals_without(marks: Vec<LocalMark>, path: &String, lineno: i32) -> (kept: Vec<LocalMark>)
    ensures
        kept.deep_view() == marks.deep_view().filter(local_elsewhere(path@, lineno as int)),
{
    let ghost all = marks.deep_view();
    let ghost keep = local_elsewhere(path@, lineno as int);
    let mut kept: Vec<LocalMark> = Vec::new();
    assert(all.take(0) =~= Seq::<LocalMarkView>::empty());
    assert(kept.deep_view() =~= Seq::<LocalMarkView>::empty());
    proof {
        reveal(Seq::filter);
    }
    for mark in it: marks
        invariant
            all == marks.deep_view(),
            it.seq() == marks@,
            keep == local_elsewhere(path@, lineno as int),
            kept.deep_view() == all.take(it.index() as int).filter(keep),
    {
        let ghost i = it.index() as int;
        let ghost before = kept.deep_view();
        proof {
            assert(all.take(i + 1) =~= all.take(i).push(all[i]));
            all.take(i).lemma_filter_push(all[i], keep);
        }
        if !(mark.path == *path && mark.lineno == lineno) {
            kept.push(mark);
            assert(kept.deep_view() =~= before.push(all[i]));
        }
    }
    assert(all.take(marks.len() as int) =~= all);
    kept
}

/// The marks of `marks` that do not stand at `path` and `lineno`.
fn globals_without(marks: Vec<GlobalMark>, path: &String, lineno: i32) -> (kept: Vec<GlobalMark>)
    ensures
        kept.deep_view() == marks.deep_view().filter(global_elsewhere(path@, lineno as int)),
{
    let ghost all = marks.deep_view();
    let ghost keep = global_elsewhere(path@, lineno as int);
    let mut kept: Vec<GlobalMark> = Vec::new();
    assert(all.take(0) =~= Seq::<GlobalMarkView>::empty());
    assert(kept.deep_view() =~= Seq::<GlobalMarkView>::empty());
    proof {
        reveal(Seq::filter);
    }
    for mark in it: marks
        invariant
            all == marks.deep_view(),
            it.seq() == marks@,
            keep == global_elsewhere(path@, lineno as int),
            kept.deep_view() == all.take(it.index() as int).filter(keep),
    {
        let ghost i = it.index() as int;
        let ghost before = kept.deep_view();
        proof {
            assert(all.take(i + 1) =~= all.take(i).push(all[i]));
            all.take(i).lemma_filter_push(all[i], keep);
        }
        if !(mark.path == *path && mark.lineno == lineno) {
            kept.push(mark);
            assert(kept.deep_view() =~= before.push(all[i]));
        }
    }
    assert(all.take(marks.len() as int) =~= all);
    kept
}

/// Appends clones of the marks of `bucket` to `marks`.
fn append_marks(marks: &mut Vec<GlobalMark>, bucket: &Vec<GlobalMark>)
    ensures
        final(marks).deep_view() == old(marks).deep_view() + bucket.deep_view(),
{
    let ghost start = marks.deep_view();
    let mut i: usize = 0;
    assert(marks.deep_view() =~= start + bucket.deep_view().take(0));
    while i < bucket.len()
        invariant
            i <= bucket.len(),
            marks.deep_view() == start + bucket.deep_view().take(i as int),
        decreases bucket.len() - i,
    {
        let ghost before = marks.deep_view();
        marks.push(bucket[i].clone());
        assert(marks.deep_view() =~= before.push(bucket.deep_view()[i as int]));
        assert(bucket.deep_view().take(i + 1) =~= bucket.deep_view().take(i as int).push(
            bucket.deep_view()[i as int],
        ));
        assert(marks.deep_view() =~= start + bucket.deep_view().take(i + 1));
        i += 1;
    }
    assert(bucket.deep_view().take(bucket.len() as int) =~= bucket.deep_view());
}

/// A clone of the marks of `bucket`.
fn clone_marks(bucket: &Vec<GlobalMark>) -> (marks: Vec<GlobalMark>)
    ensures
        marks.deep_view() == bucket.deep_view(),
{
    let mut marks: Vec<GlobalMark> = Vec::new();
    assert(marks.deep_view() =~= Seq::<GlobalMarkView>::empty());
    append_marks(&mut marks, bucket);
    assert(marks.deep_view() =~= bucket.deep_view());
    marks
}

impl Stack {
    /// The paths that have a bucket of global marks, in the order in which
    /// the buckets were made.
    pub closed spec fn paths(&self) -> Seq<Seq<char>> {
        self.global_marks.keys()
    }

    /// A stack called `name` that holds nothing.
    pub fn new(name: String) -> (stack: Stack)
        ensures
            stack@ == StackView::empty(name@),
            stack.paths() == Seq::<Seq<char>>::empty(),
    {
        let stack = Stack {
            name,
            pinned_buffers: Vec::new(),
            local_marks: Vec::new(),
            global_marks: Table::new(),
        };
        assert(stack.pinned_buffers.deep_view() =~= Seq::<PinnedBufferView>::empty());
        assert(stack.local_marks.deep_view() =~= Seq::<LocalMarkView>::empty());
        assert(bucket_views(stack.global_marks@) =~= Map::<Seq<char>, Seq<GlobalMarkView>>::empty());
        stack
    }

    /// The name of the stack.
    pub fn name(&self) -> (name: &String)
        ensures
            name@ == self@.name,
    {
        &self.name
    }

    /// The pinned buffers, oldest first.
    pub fn pinned_buffers(&self) -> (buffers: &Vec<PinnedBuffer>)
        ensures
            buffers.deep_view() == self@.pinned_buffers,
    {
        &self.pinned_buffers
    }

    /// The local marks, oldest first.
    pub fn local_marks(&self) -> (marks: &Vec<LocalMark>)
        ensures
            marks.deep_view() == self@.local_marks,
    {
        &self.local_marks
    }

    /// Gives the stack another name.
    fn set_name(&mut self, name: String)
        ensures
            final(self)@ == (StackView { name: name@, ..old(self)@ }),
            final(self).paths() == old(self).paths(),
    {
        self.name = name;
    }

    /// Pins `path` under `label`, in place of what was pinned for `path`.
    fn pin_buffer(&mut self, path: String, label: String)
        ensures
            final(self)@ == old(self)@.pin_buffer(path@, label@),
            final(self).paths() == old(self).paths(),
    {
        let mut held: Vec<PinnedBuffer> = Vec::new();
        core::mem::swap(&mut self.pinned_buffers, &mut held);
        let mut kept = pinned_without(held, &path);
        let ghost before = kept.deep_view();
        kept.push(PinnedBuffer { path, label });
        assert(kept.deep_view() =~= before.push(PinnedBufferView { path: path@, label: label@ }));
        self.pinned_buffers = kept;
    }

    /// Takes out what is pinned for `path`, and tells whether there was
    /// anything.
    fn unpin_buffer(&mut self, path: &String) -> (removed: bool)
        ensures
            final(self)@ == old(self)@.unpin_buffer(path@),
            final(self).paths() == old(self).paths(),
            removed == old(self)@.has_pinned(path@),
    {
        let count = self.pinned_buffers.len();
        let ghost all = self.pinned_buffers.deep_view();
        let mut held: Vec<PinnedBuffer> = Vec::new();
        core::mem::swap(&mut self.pinned_buffers, &mut held);
        self.pinned_buffers = pinned_without(held, path);
        proof {
            let keep = pinned_elsewhere(path@);
            lemma_filter_full_length(all, keep);
            if old(self)@.has_pinned(path@) {
                let i = choose|i: int| 0 <= i < all.len() && (#[trigger] all[i]).path == path@;
                assert(!keep(all[i]));
            }
            if all.filter(keep).len() != all.len() {
                let i = choose|i: int| 0 <= i < all.len() && !keep(#[trigger] all[i]);
                assert(old(self)@.pinned_buffers[i].path == path@);
            }
        }
        self.pinned_buffers.len() != count
    }

    /// The first buffer pinned for `path`.
    fn get_pinned_buffer(&self, path: &String) -> (found: Option<PinnedBuffer>)
        ensures
            found.deep_view() == self@.pinned_buffer(path@),
    {
        let ghost all = self.pinned_buffers.deep_view();
        let mut i: usize = 0;
        while i < self.pinned_buffers.len()
            invariant
                i <= self.pinned_buffers.len(),
                all == self.pinned_buffers.deep_view(),
                forall|j: int| 0 <= j < i ==> !pinned_at(path@)(#[trigger] all[j]),
            decreases self.pinned_buffers.len() - i,
        {
            if self.pinned_buffers[i].path == *path {
                proof {
                    let at = pinned_at(path@);
                    assert(all =~= all.take(i as int) + all.skip(i as int));
                    Seq::filter_distributes_over_add(all.take(i as int), all.skip(i as int), at);
                    lemma_filter_drops_all(all.take(i as int), at);
                    let rest = all.skip(i as int);
                    assert(rest =~= seq![rest[0]] + rest.skip(1));
                    rest.skip(1).lemma_filter_prepend(rest[0], at);
                    assert(all.filter(at)[0] == all[i as int]);
                }
                return Some(self.pinned_buffers[i].clone());
            }
            i += 1;
        }
        proof {
            lemma_filter_drops_all(all, pinned_at(path@));
        }
        None
    }

    /// Sets a local mark, in place of the marks at the same path and line.
    fn add_local_mark(&mut self, path: String, line: String, lineno: i32)
        ensures
            final(self)@ == old(self)@.add_local_mark(path@, line@, lineno as int),
            final(self).paths() == old(self).paths(),
    {
        let mut held: Vec<LocalMark> = Vec::new();
        core::mem::swap(&mut self.local_marks, &mut held);
        let mut kept = locals_without(held, &path, lineno);
        let ghost before = kept.deep_view();
        kept.push(LocalMark { path, line, lineno });
        assert(kept.deep_view() =~= before.push(
            LocalMarkView { path: path@, line: line@, lineno: lineno as int },
        ));
        self.local_marks = kept;
    }

    /// Takes out the local marks at `path` and `lineno`, and tells whether
    /// there was one.
    fn remove_local_mark(&mut self, path: &String, lineno: i32) -> (removed: bool)
        ensures
            final(self)@ == old(self)@.remove_local_mark(path@, lineno as int),
            final(self).paths() == old(self).paths(),
            removed == old(self)@.has_local_mark(path@, lineno as int),
    {
        let count = self.local_marks.len();
        let ghost all = self.local_marks.deep_view();
        let mut held: Vec<LocalMark> = Vec::new();
        core::mem::swap(&mut self.local_marks, &mut held);
        self.local_marks = locals_without(held, path, lineno);
        proof {
            let keep = local_elsewhere(path@, lineno as int);
            lemma_filter_full_length(all, keep);
            if old(self)@.has_local_mark(path@, lineno as int) {
                let i = choose|i: int|
                    0 <= i < all.len() && (#[trigger] all[i]).path == path@ && all[i].lineno
                        == lineno as int;
                assert(!keep(all[i]));
            }
            if all.filter(keep).len() != all.len() {
                let i = choose|i: int| 0 <= i < all.len() && !keep(#[trigger] all[i]);
                assert(old(self)@.local_marks[i].path == path@ && all[i].lineno == lineno as int);
            }
        }
        self.local_marks.len() != count
    }

    /// Moves the local marks at `path` and `lineno` to `new_lineno`, and
    /// tells whether a mark was moved.
    fn update_local_mark(&mut self, path: &String, lineno: i32, new_lineno: Option<i32>) -> (updated:
        bool)
        ensures
            final(self)@ == old(self)@.update_local_mark(path@, lineno as int, number_of(new_lineno)),
            final(self).paths() == old(self).paths(),
            updated == (new_lineno is Some && old(self)@.has_local_mark(path@, lineno as int)),
    {
        let ghost all = self.local_marks.deep_view();
        let target = match new_lineno {
            Some(n) => n,
            None => {
                assert(self.local_marks.deep_view() =~= old(self)@.update_local_mark(
                    path@,
                    lineno as int,
                    number_of(new_lineno),
                ).local_marks);
                return false;
            },
        };
        let mut updated = false;
        let mut i: usize = 0;
        while i < self.local_marks.len()
            invariant
                i <= self.local_marks.len(),
                self.local_marks.len() == all.len(),
                new_lineno == Some(target),
                self.name == old(self).name,
                self.pinned_buffers == old(self).pinned_buffers,
                self.global_marks == old(self).global_marks,
                forall|j: int|
                    0 <= j < i ==> (#[trigger] self.local_marks.deep_view()[j]) == local_updated(
                        all[j],
                        path@,
                        lineno as int,
                        number_of(new_lineno),
                    ),
                forall|j: int|
                    i <= j < all.len() ==> (#[trigger] self.local_marks.deep_view()[j]) == all[j],
                updated == exists|j: int|
                    0 <= j < i && (#[trigger] all[j]).path == path@ && all[j].lineno == lineno as int,
            decreases self.local_marks.len() - i,
        {
            let ghost before = self.local_marks.deep_view();
            if self.local_marks[i].path == *path && self.local_marks[i].lineno == lineno {
                self.local_marks[i].lineno = target;
                updated = true;
            }
            proof {
                let now = self.local_marks.deep_view();
                assert forall|j: int| 0 <= j < all.len() && j != i implies now[j] == before[j] by {}
                assert(all[i as int] == before[i as int]);
            }
            i += 1;
        }
        assert(self.local_marks.deep_view() =~= old(self)@.update_local_mark(
            path@,
            lineno as int,
            number_of(new_lineno),
        ).local_marks);
        updated
    }

    /// Sets a global mark in the bucket of `path`, in the name of the stack
    /// called `owner`.
    fn add_global_mark(&mut self, owner: &String, path: String, desc: String, line: String, lineno: i32)
        ensures
            final(self)@ == old(self)@.add_global_mark(owner@, path@, desc@, line@, lineno as int),
            final(self).paths() == if old(self)@.global_marks.dom().contains(path@) {
                old(self).paths()
            } else {
                old(self).paths().push(path@)
            },
    {
        let ghost table = self.global_marks@;
        let ghost mark = GlobalMarkView {
            stack: owner@,
            path: path@,
            line: line@,
            lineno: lineno as int,
            desc: desc@,
        };
        match self.global_marks.position(&path) {
            Some(k) => {
                let mut marks: Vec<GlobalMark> = Vec::new();
                core::mem::swap(self.global_marks.value_mut(k), &mut marks);
                let ghost bucket = marks.deep_view();
                assert(bucket == old(self)@.bucket(path@));
                let mut i: usize = 0;
                while i < marks.len() && marks[i].lineno != lineno
                    invariant
                        i <= marks.len(),
                        bucket == marks.deep_view(),
                        forall|j: int| 0 <= j < i ==> (#[trigger] bucket[j]).lineno != lineno as int,
                    decreases marks.len() - i,
                {
                    i += 1;
                }
                if i < marks.len() {
                    marks[i].desc = desc;
                    marks[i].line = line;
                    proof {
                        assert(bucket[i as int].lineno == lineno as int);
                        let first = first_at_line(bucket, lineno as int);
                        assert(first == i as int);
                        assert(marks.deep_view() =~= bucket_with(bucket, mark));
                    }
                } else {
                    marks.push(GlobalMark { stack: owner.clone(), path, line, desc, lineno });
                    proof {
                        assert(!line_taken(bucket, lineno as int));
                        assert(marks.deep_view() =~= bucket_with(bucket, mark));
                    }
                }
                let ghost done = marks.deep_view();
                core::mem::swap(self.global_marks.value_mut(k), &mut marks);
                assert(bucket_views(self.global_marks@) =~= bucket_views(table).insert(path@, done));
            },
            None => {
                let ghost key = path@;
                let mut marks: Vec<GlobalMark> = Vec::new();
                marks.push(GlobalMark { stack: owner.clone(), path: path.clone(), line, desc, lineno });
                let ghost done = marks.deep_view();
                proof {
                    assert(!line_taken(Seq::<GlobalMarkView>::empty(), lineno as int));
                    assert(done =~= bucket_with(Seq::<GlobalMarkView>::empty(), mark));
                }
                self.global_marks.insert(path, marks);
                assert(bucket_views(self.global_marks@) =~= bucket_views(table).insert(key, done));
            },
        }
    }

    /// Takes the global marks at `path` and `lineno` out of the bucket of
    /// `path`, and tells whether there was one.
    fn remove_global_mark(&mut self, path: &String, lineno: i32) -> (removed: bool)
        ensures
            final(self)@ == old(self)@.remove_global_mark(path@, lineno as int),
            final(self).paths() == old(self).paths(),
            removed == old(self)@.has_global_mark(path@, lineno as int),
    {
        let ghost table = self.global_marks@;
        match self.global_marks.position(path) {
            Some(k) => {
                let mut marks: Vec<GlobalMark> = Vec::new();
                core::mem::swap(self.global_marks.value_mut(k), &mut marks);
                let count = marks.len();
                let ghost all = marks.deep_view();
                assert(all == old(self)@.bucket(path@));
                let mut kept = globals_without(marks, path, lineno);
                let removed = kept.len() != count;
                proof {
                    let keep = global_elsewhere(path@, lineno as int);
                    lemma_filter_full_length(all, keep);
                    if old(self)@.has_global_mark(path@, lineno as int) {
                        let i = choose|i: int|
                            0 <= i < all.len() && (#[trigger] all[i]).path == path@ && all[i].lineno
                                == lineno as int;
                        assert(!keep(all[i]));
                    }
                    if all.filter(keep).len() != all.len() {
                        let i = choose|i: int| 0 <= i < all.len() && !keep(#[trigger] all[i]);
                        assert(old(self)@.bucket(path@)[i].path == path@ && all[i].lineno
                            == lineno as int);
                    }
                }
                let ghost done = kept.deep_view();
                core::mem::swap(self.global_marks.value_mut(k), &mut kept);
                assert(bucket_views(self.global_marks@) =~= bucket_views(table).insert(path@, done));
                removed
            },
            None => {
                assert(old(self)@.bucket(path@).len() == 0);
                false
            },
        }
    }

    /// Gives the global marks at `path` and `lineno` the new line and the new
    /// description, as far as they are given, and tells whether a mark
    /// changed.
    fn update_global_mark(
        &mut self,
        path: &String,
        lineno: i32,
        new_lineno: Option<i32>,
        new_desc: Option<String>,
    ) -> (updated: bool)
        ensures
            final(self)@ == old(self)@.update_global_mark(
                path@,
                lineno as int,
                number_of(new_lineno),
                text_of(new_desc),
            ),
            final(self).paths() == old(self).paths(),
            updated == ((new_lineno is Some || new_desc is Some) && old(self)@.has_global_mark(
                path@,
                lineno as int,
            )),
    {
        let ghost table = self.global_marks@;
        match self.global_marks.position(path) {
            Some(k) => {
                let mut marks: Vec<GlobalMark> = Vec::new();
                core::mem::swap(self.global_marks.value_mut(k), &mut marks);
                let ghost all = marks.deep_view();
                assert(all == old(self)@.bucket(path@));
                let mut updated = false;
                let mut i: usize = 0;
                while i < marks.len()
                    invariant
                        i <= marks.len(),
                        marks.len() == all.len(),
                        forall|j: int|
                            0 <= j < i ==> (#[trigger] marks.deep_view()[j]) == global_updated(
                                all[j],
                                path@,
                                lineno as int,
                                number_of(new_lineno),
                                text_of(new_desc),
                            ),
                        forall|j: int| i <= j < all.len() ==> (#[trigger] marks.deep_view()[j]) == all[j],
                        updated == ((new_lineno is Some || new_desc is Some) && exists|j: int|
                            0 <= j < i && (#[trigger] all[j]).path == path@ && all[j].lineno
                                == lineno as int),
                    decreases marks.len() - i,
                {
                    let ghost before = marks.deep_view();
                    if marks[i].path == *path && marks[i].lineno == lineno {
                        match new_lineno {
                            Some(n) => {
                                marks[i].lineno = n;
                                updated = true;
                            },
                            None => {},
                        }
                        match &new_desc {
                            Some(d) => {
                                marks[i].desc = d.clone();
                                updated = true;
                            },
                            None => {},
                        }
                    }
                    proof {
                        let now = marks.deep_view();
                        assert forall|j: int| 0 <= j < all.len() && j != i implies now[j]
                            == before[j] by {}
                        assert(all[i as int] == before[i as int]);
                    }
                    i += 1;
                }
                let ghost done = marks.deep_view();
                assert(done =~= Seq::new(
                    all.len(),
                    |i: int|
                        global_updated(
                            all[i],
                            path@,
                            lineno as int,
                            number_of(new_lineno),
                            text_of(new_desc),
                        ),
                ));
                core::mem::swap(self.global_marks.value_mut(k), &mut marks);
                assert(bucket_views(self.global_marks@) =~= bucket_views(table).insert(path@, done));
                updated
            },
            None => {
                assert(old(self)@.bucket(path@).len() == 0);
                false
            },
        }
    }

    /// The global marks kept for `path`, or, where no path is given, the
    /// global marks of all paths, bucket after bucket. In which order the
    /// buckets come is not part of the interface; `paths` names it.
    pub fn list_global_marks(&self, path: Option<String>) -> (marks: Vec<GlobalMark>)
        ensures
            marks.deep_view() == match path {
                Some(p) => self@.bucket(p@),
                None => buckets_in_order(self.paths(), self@.global_marks),
            },
            self.paths().no_duplicates(),
            forall|k: Seq<char>| #[trigger]
                self.paths().contains(k) <==> self@.global_marks.dom().contains(k),
    {
        proof {
            use_type_invariant(&self.global_marks);
        }
        match path {
            Some(p) => match self.global_marks.position(&p) {
                Some(k) => clone_marks(self.global_marks.value(k)),
                None => {
                    let marks: Vec<GlobalMark> = Vec::new();
                    assert(marks.deep_view() =~= Seq::<GlobalMarkView>::empty());
                    marks
                },
            },
            None => {
                let mut marks: Vec<GlobalMark> = Vec::new();
                let count = self.global_marks.len();
                let mut k: usize = 0;
                assert(self.paths().take(0) =~= Seq::<Seq<char>>::empty());
                assert(marks.deep_view() =~= Seq::<GlobalMarkView>::empty());
                while k < count
                    invariant
                        k <= count,
                        count == self.paths().len(),
                        self.global_marks.valid(),
                        marks.deep_view() == buckets_in_order(
                            self.paths().take(k as int),
                            self@.global_marks,
                        ),
                    decreases count - k,
                {
                    proof {
                        assert(self.paths().take(k + 1).drop_last() =~= self.paths().take(k as int));
                        lemma_map_of_index(
                            self.global_marks.keys(),
                            self.global_marks.values(),
                            k as int,
                        );
                    }
                    append_marks(&mut marks, self.global_marks.value(k));
                    k += 1;
                }
                assert(self.paths().take(count as int) =~= self.paths());
                marks
            },
        }
    }

    /// The buckets of global marks, each with its path, in the order of
    /// `paths`. Together with the name, the pinned buffers and the local
    /// marks they are the parts of which `from_parts` makes a stack of the
    /// same value.
    pub fn buckets(&self) -> (buckets: Vec<(String, Vec<GlobalMark>)>)
        ensures
            bucket_views(pairs_map(buckets@)) == self@.global_marks,
            pairs_keys(buckets@) == self.paths(),
            buckets.len() == self.paths().len(),
            forall|k: int|
                0 <= k < buckets.len() ==> (#[trigger] buckets[k]).0@ == self.paths()[k]
                    && buckets[k].1.deep_view() == self@.global_marks[self.paths()[k]],
    {
        proof {
            use_type_invariant(&self.global_marks);
        }
        let mut buckets: Vec<(String, Vec<GlobalMark>)> = Vec::new();
        let count = self.global_marks.len();
        let mut k: usize = 0;
        while k < count
            invariant
                k <= count,
                count == self.paths().len(),
                self.global_marks.valid(),
                buckets.len() == k,
                forall|j: int|
                    0 <= j < k ==> (#[trigger] buckets[j]).0@ == self.paths()[j]
                        && buckets[j].1.deep_view() == self@.global_marks[self.paths()[j]],
            decreases count - k,
        {
            proof {
                lemma_map_of_index(self.global_marks.keys(), self.global_marks.values(), k as int);
            }
            let path = self.global_marks.key(k).clone();
            let marks = clone_marks(self.global_marks.value(k));
            buckets.push((path, marks));
            k += 1;
        }
        proof {
            let keys = self.paths();
            lemma_pairs_of_distinct_keys(buckets@, keys);
            assert forall|key: Seq<char>| #[trigger]
                bucket_views(pairs_map(buckets@)).dom().contains(key)
                    <==> self@.global_marks.dom().contains(key) by {}
            assert forall|key: Seq<char>| keys.contains(key) implies #[trigger] bucket_views(
                pairs_map(buckets@),
            )[key] == self@.global_marks[key] by {
                let i = keys.index_of(key);
                assert(pairs_map(buckets@)[keys[i]] == buckets@[i].1);
            }
            assert(bucket_views(pairs_map(buckets@)) =~= self@.global_marks);
        }
        buckets
    }

    /// A stack made of its parts. Where two buckets name one path, the
    /// later bucket counts.
    pub fn from_parts(
        name: String,
        pinned_buffers: Vec<PinnedBuffer>,
        local_marks: Vec<LocalMark>,
        buckets: Vec<(String, Vec<GlobalMark>)>,
    ) -> (stack: Stack)
        ensures
            stack@ == (StackView {
                name: name@,
                pinned_buffers: pinned_buffers.deep_view(),
                local_marks: local_marks.deep_view(),
                global_marks: bucket_views(pairs_map(buckets@)),
            }),
            stack.paths() == pairs_keys(buckets@),
    {
        Stack { name, pinned_buffers, local_marks, global_marks: Table::from_pairs(buckets) }
    }
}

impl Clone for Stack {
    fn clone(&self) -> (res: Self)
        ensures
            res@ == self@,
            res.paths() == self.paths(),
    {
        proof {
            use_type_invariant(&self.global_marks);
        }
        let res = Stack {
            name: self.name.clone(),
            pinned_buffers: self.pinned_buffers.clone(),
            local_marks: self.local_marks.clone(),
            global_marks: self.global_marks.clone(),
        };
        proof {
            use_type_invariant(&res.global_marks);
            assert(res.pinned_buffers.deep_view() =~= self.pinned_buffers.deep_view());
            assert(res.local_marks.deep_view() =~= self.local_marks.deep_view());
            let keys = self.global_marks.keys();
            assert forall|k: Seq<char>| keys.contains(k) implies #[trigger] bucket_views(
                res.global_marks@,
            )[k] == bucket_views(self.global_marks@)[k] by {
                let i = keys.index_of(k);
                lemma_map_of_index(keys, self.global_marks.values(), i);
                lemma_map_of_index(keys, res.global_marks.values(), i);
                let a = self.global_marks.values()[i];
                let b = res.global_marks.values()[i];
                assert(cloned::<Vec<GlobalMark>>(a, b));
                assert(b.deep_view() =~= a.deep_view());
            }
            assert(bucket_views(res.global_marks@) =~= bucket_views(self.global_marks@));
        }
        res
    }
}

/// The values of the stacks of a table of stacks.
pub open spec fn stack_views(stacks: Map<Seq<char>, Stack>) -> Map<Seq<char>, StackView> {
    Map::new(|k: Seq<char>| stacks.dom().contains(k), |k: Seq<char>| stacks[k]@)
}

/// The stacks of one project: named stacks, of which one may be active.
/// Every operation on pinned buffers and marks works on the active stack.
///
/// A call that changes the collection returns `true`, or the stack it took
/// out; the caller then stores the collection again.
pub struct Stacks {
    pub active: Option<String>,
    stacks: Table<Stack>,
}

impl View for Stacks {
    type V = StacksView;

    closed spec fn view(&self) -> StacksView {
        StacksView { active: text_of(self.active), stacks: stack_views(self.stacks@) }
    }
}

impl DeepView for Stacks {
    type V = StacksView;

    open spec fn deep_view(&self) -> StacksView {
        self@
    }
}

impl Stacks {
    /// The names of the stacks in the order in which `list` gives them.
    pub closed spec fn order(&self) -> Seq<Seq<char>> {
        self.stacks.keys()
    }

    /// The order in which the stack under `name` lists its buckets of
    /// global marks.
    pub closed spec fn paths(&self, name: Seq<char>) -> Seq<Seq<char>> {
        self.stacks@[name].paths()
    }

    /// A collection without stacks.
    pub fn new() -> (stacks: Stacks)
        ensures
            stacks@ == StacksView::empty(),
            stacks.order() == Seq::<Seq<char>>::empty(),
    {
        let stacks = Stacks { active: None, stacks: Table::new() };
        assert(stack_views(stacks.stacks@) =~= Map::<Seq<char>, StackView>::empty());
        stacks
    }

    /// A collection made of its parts: the active name and the stacks, each
    /// with the name it stands under. Where two stacks stand under one name,
    /// the later one counts.
    pub fn from_parts(active: Option<String>, stacks: Vec<(String, Stack)>) -> (made: Stacks)
        ensures
            made@ == (StacksView {
                active: text_of(active),
                stacks: stack_views(pairs_map(stacks@)),
            }),
            made.order() == pairs_keys(stacks@),
    {
        Stacks { active, stacks: Table::from_pairs(stacks) }
    }

    /// The active name.
    pub fn active_name(&self) -> (name: Option<String>)
        ensures
            text_of(name) == self@.active,
    {
        self.active.clone()
    }

    /// The position of the active stack.
    fn active_position(&self) -> (found: Option<usize>)
        ensures
            found is Some <==> self@.current() is Some,
            found matches Some(i) ==> i < self.stacks.keys().len() && self@.active == Some(
                self.stacks.keys()[i as int],
            ) && self.stacks@.dom().contains(self.stacks.keys()[i as int])
                && self.stacks.values()[i as int] == self.stacks@[self.stacks.keys()[i as int]],
    {
        match &self.active {
            Some(name) => self.stacks.position(name),
            None => None,
        }
    }

    /// Adds an empty stack under `name` and makes it active. Returns
    /// `false`, and changes nothing, where the name is taken.
    pub fn add(&mut self, name: String) -> (added: bool)
        ensures
            final(self)@ == old(self)@.add(name@),
            added == !old(self)@.has(name@),
            final(self).order() == if added {
                old(self).order().push(name@)
            } else {
                old(self).order()
            },
    {
        if self.stacks.position(&name).is_some() {
            return false;
        }
        let ghost table = self.stacks@;
        let stack = Stack::new(name.clone());
        self.stacks.insert(name.clone(), stack);
        self.active = Some(name);
        assert(stack_views(self.stacks@) =~= stack_views(table).insert(
            name@,
            StackView::empty(name@),
        ));
        true
    }

    /// The stacks of the collection, in the order of `order`.
    pub fn list(&self) -> (stacks: Vec<Stack>)
        ensures
            stacks.len() == self.order().len(),
            forall|i: int|
                0 <= i < stacks.len() ==> (#[trigger] stacks[i])@ == self@.stacks[self.order()[i]]
                    && stacks[i].paths() == self.paths(self.order()[i]),
            self.order().no_duplicates(),
            forall|name: Seq<char>| #[trigger] self.order().contains(name) <==> self@.has(name),
    {
        proof {
            use_type_invariant(&self.stacks);
        }
        let mut stacks: Vec<Stack> = Vec::new();
        let count = self.stacks.len();
        let mut i: usize = 0;
        while i < count
            invariant
                i <= count,
                count == self.order().len(),
                self.stacks.valid(),
                stacks.len() == i,
                forall|j: int|
                    0 <= j < i ==> (#[trigger] stacks[j])@ == self@.stacks[self.order()[j]]
                        && stacks[j].paths() == self.paths(self.order()[j]),
            decreases count - i,
        {
            proof {
                lemma_map_of_index(self.stacks.keys(), self.stacks.values(), i as int);
            }
            stacks.push(self.stacks.value(i).clone());
            i += 1;
        }
        stacks
    }

    /// The stacks, each with the name it stands under, in the order of
    /// `order`. Together with the active name they are the parts of which
    /// `from_parts` makes a collection of the same value.
    pub fn entries(&self) -> (entries: Vec<(String, Stack)>)
        ensures
            stack_views(pairs_map(entries@)) == self@.stacks,
            pairs_keys(entries@) == self.order(),
            entries.len() == self.order().len(),
            forall|i: int|
                0 <= i < entries.len() ==> (#[trigger] entries[i]).0@ == self.order()[i]
                    && entries[i].1@ == self@.stacks[self.order()[i]] && entries[i].1.paths()
                    == self.paths(self.order()[i]),
    {
        proof {
            use_type_invariant(&self.stacks);
        }
        let mut entries: Vec<(String, Stack)> = Vec::new();
        let count = self.stacks.len();
        let mut i: usize = 0;
        while i < count
            invariant
                i <= count,
                count == self.order().len(),
                self.stacks.valid(),
                entries.len() == i,
                forall|j: int|
                    0 <= j < i ==> (#[trigger] entries[j]).0@ == self.order()[j] && entries[j].1@
                        == self@.stacks[self.order()[j]] && entries[j].1.paths() == self.paths(
                        self.order()[j],
                    ),
            decreases count - i,
        {
            proof {
                lemma_map_of_index(self.stacks.keys(), self.stacks.values(), i as int);
            }
            let name = self.stacks.key(i).clone();
            let stack = self.stacks.value(i).clone();
            entries.push((name, stack));
            i += 1;
        }
        proof {
            let keys = self.order();
            lemma_pairs_of_distinct_keys(entries@, keys);
            assert forall|key: Seq<char>| #[trigger]
                stack_views(pairs_map(entries@)).dom().contains(key) <==> self@.stacks.dom().contains(
                    key,
                ) by {}
            assert forall|key: Seq<char>| keys.contains(key) implies #[trigger] stack_views(
                pairs_map(entries@),
            )[key] == self@.stacks[key] by {
                let i = keys.index_of(key);
                assert(pairs_map(entries@)[keys[i]] == entries@[i].1);
            }
            assert(stack_views(pairs_map(entries@)) =~= self@.stacks);
        }
        entries
    }

    /// Makes the stack under `name` the active one. Returns `false`, and
    /// changes nothing, where there is no such stack.
    pub fn set_active(&mut self, name: String) -> (set: bool)
        ensures
            final(self)@ == old(self)@.set_active(name@),
            set == old(self)@.has(name@),
            final(self).order() == old(self).order(),
    {
        if self.stacks.position(&name).is_none() {
            return false;
        }
        self.active = Some(name);
        true
    }

    /// Whether `name` is the active name.
    pub fn is_active(&self, name: String) -> (active: bool)
        ensures
            active == self@.is_active(name@),
    {
        match &self.active {
            Some(active_name) => *active_name == name,
            None => false,
        }
    }

    /// The stack under `name`, or the active stack where no name is given.
    pub fn get(&self, name: Option<String>) -> (stack: Option<Stack>)
        ensures
            stack.deep_view() == self@.get(text_of(name)),
            stack matches Some(s) ==> s.paths() == self.paths(
                if name is Some {
                    name->0@
                } else {
                    self@.active->0
                },
            ),
    {
        let found = match &name {
            Some(n) => self.stacks.position(n),
            None => self.active_position(),
        };
        match found {
            Some(i) => Some(self.stacks.value(i).clone()),
            None => None,
        }
    }

    /// Takes the stack under `name` out of the collection and returns it.
    /// If it was the active stack, no stack is active afterwards.
    pub fn remove(&mut self, name: String) -> (removed: Option<Stack>)
        ensures
            final(self)@ == old(self)@.remove(name@),
            removed.deep_view() == old(self)@.get(Some(name@)),
            final(self).order() == if old(self)@.has(name@) {
                old(self).order().remove(old(self).order().index_of(name@))
            } else {
                old(self).order()
            },
    {
        let ghost table = self.stacks@;
        match self.stacks.remove(&name) {
            Some(stack) => {
                if self.is_active(name.clone()) {
                    self.active = None;
                }
                assert(stack_views(self.stacks@) =~= stack_views(table).remove(name@));
                Some(stack)
            },
            None => None,
        }
    }

    /// Moves the stack under `old_name` to `new_name`. Returns `false`, and
    /// changes nothing, where `old_name` names no stack or `new_name` is
    /// taken.
    pub fn rename(&mut self, old_name: String, new_name: String) -> (renamed: bool)
        ensures
            final(self)@ == old(self)@.rename(old_name@, new_name@),
            renamed == (old(self)@.has(old_name@) && !old(self)@.has(new_name@)),
            final(self).order() == if renamed {
                old(self).order().remove(old(self).order().index_of(old_name@)).push(new_name@)
            } else {
                old(self).order()
            },
    {
        if self.stacks.position(&old_name).is_none() || self.stacks.position(&new_name).is_some() {
            return false;
        }
        let ghost table = self.stacks@;
        let was_active = self.is_active(old_name.clone());
        match self.stacks.remove(&old_name) {
            Some(stack) => {
                let mut stack = stack;
                stack.set_name(new_name.clone());
                self.stacks.insert(new_name.clone(), stack);
                if was_active {
                    self.active = Some(new_name);
                }
                assert(stack_views(self.stacks@) =~= stack_views(table).remove(old_name@).insert(
                    new_name@,
                    StackView { name: new_name@, ..table[old_name@]@ },
                ));
                true
            },
            None => false,
        }
    }

    /// Pins `path` under `label` in the active stack, in place of what was
    /// pinned for `path` before. Returns `false`, and changes nothing, where
    /// there is no active stack.
    pub fn pin_buffer(&mut self, path: String, label: String) -> (pinned: bool)
        ensures
            final(self)@ == old(self)@.pin_buffer(path@, label@),
            pinned == old(self)@.current() is Some,
            final(self).order() == old(self).order(),
    {
        let ghost table = self.stacks@;
        match self.active_position() {
            Some(i) => {
                self.stacks.value_mut(i).pin_buffer(path, label);
                assert(stack_views(self.stacks@) =~= stack_views(table).insert(
                    old(self)@.active->0,
                    old(self)@.current()->0.pin_buffer(path@, label@),
                ));
                true
            },
            None => false,
        }
    }

    /// Unpins `path` in the active stack. Returns `false`, and changes
    /// nothing, where there is no active stack or nothing is pinned for
    /// `path`.
    pub fn unpin_buffer(&mut self, path: String) -> (unpinned: bool)
        ensures
            final(self)@ == old(self)@.unpin_buffer(path@),
            unpinned == (old(self)@.current() matches Some(stack) && stack.has_pinned(path@)),
            !unpinned ==> final(self)@ == old(self)@,
            final(self).order() == old(self).order(),
    {
        let ghost table = self.stacks@;
        match self.active_position() {
            Some(i) => {
                let unpinned = self.stacks.value_mut(i).unpin_buffer(&path);
                proof {
                    let stack = old(self)@.current()->0;
                    assert(stack_views(self.stacks@) =~= stack_views(table).insert(
                        old(self)@.active->0,
                        stack.unpin_buffer(path@),
                    ));
                    if !unpinned {
                        lemma_unpin_absent(stack, path@);
                        assert(stack_views(self.stacks@) =~= stack_views(table));
                    }
                }
                unpinned
            },
            None => false,
        }
    }

    /// The pinned buffers of the active stack, oldest first; none where
    /// there is no active stack.
    pub fn list_pinned_buffers(&self) -> (buffers: Vec<PinnedBuffer>)
        ensures
            buffers.deep_view() == self@.pinned_buffers(),
    {
        match self.active_position() {
            Some(i) => {
                let held = self.stacks.value(i).pinned_buffers();
                let buffers = held.clone();
                assert(buffers.deep_view() =~= held.deep_view());
                buffers
            },
            None => {
                let buffers: Vec<PinnedBuffer> = Vec::new();
                assert(buffers.deep_view() =~= Seq::<PinnedBufferView>::empty());
                buffers
            },
        }
    }

    /// The first buffer that the active stack has pinned for `path`.
    pub fn get_pinned_buffer(&self, path: String) -> (buffer: Option<PinnedBuffer>)
        ensures
            buffer.deep_view() == self@.pinned_buffer(path@),
    {
        match self.active_position() {
            Some(i) => self.stacks.value(i).get_pinned_buffer(&path),
            None => None,
        }
    }

    /// Sets a global mark in the active stack. A mark that the bucket of
    /// `path` holds at `lineno` takes over `desc` and `line`; else a new mark
    /// goes to the end of the bucket. Returns `false`, and changes nothing,
    /// where there is no active stack.
    pub fn add_global_mark(&mut self, path: String, desc: String, line: String, lineno: i32) -> (added:
        bool)
        ensures
            final(self)@ == old(self)@.add_global_mark(path@, desc@, line@, lineno as int),
            added == old(self)@.current() is Some,
            final(self).order() == old(self).order(),
    {
        let ghost table = self.stacks@;
        match self.active_position() {
            Some(i) => {
                let owner = self.stacks.key(i).clone();
                self.stacks.value_mut(i).add_global_mark(&owner, path, desc, line, lineno);
                assert(stack_views(self.stacks@) =~= stack_views(table).insert(
                    old(self)@.active->0,
                    old(self)@.current()->0.add_global_mark(
                        old(self)@.active->0,
                        path@,
                        desc@,
                        line@,
                        lineno as int,
                    ),
                ));
                true
            },
            None => false,
        }
    }

    /// Takes the global marks at `path` and `lineno` out of the active
    /// stack. Returns `true` if and only if a mark was taken out.
    pub fn remove_global_mark(&mut self, path: String, lineno: i32) -> (removed: bool)
        ensures
            final(self)@ == old(self)@.remove_global_mark(path@, lineno as int),
            removed == (old(self)@.current() matches Some(stack) && stack.has_global_mark(
                path@,
                lineno as int,
            )),
            !removed ==> final(self)@ == old(self)@,
            final(self).order() == old(self).order(),
    {
        let ghost table = self.stacks@;
        match self.active_position() {
            Some(i) => {
                let removed = self.stacks.value_mut(i).remove_global_mark(&path, lineno);
                proof {
                    let stack = old(self)@.current()->0;
                    assert(stack_views(self.stacks@) =~= stack_views(table).insert(
                        old(self)@.active->0,
                        stack.remove_global_mark(path@, lineno as int),
                    ));
                    if !removed {
                        lemma_remove_global_absent(stack, path@, lineno as int);
                        assert(stack_views(self.stacks@) =~= stack_views(table));
                    }
                }
                removed
            },
            None => false,
        }
    }

    /// The global marks that the active stack keeps for `path`, or all its
    /// global marks, bucket after bucket, where no path is given; none where
    /// there is no active stack.
    pub fn list_global_marks(&self, path: Option<String>) -> (marks: Vec<GlobalMark>)
        ensures
            marks.deep_view() == match self@.current() {
                Some(stack) => match path {
                    Some(p) => stack.bucket(p@),
                    None => buckets_in_order(self.paths(self@.active->0), stack.global_marks),
                },
                None => Seq::empty(),
            },
            self@.current() matches Some(stack) ==> self.paths(self@.active->0).no_duplicates()
                && forall|k: Seq<char>| #[trigger]
                self.paths(self@.active->0).contains(k) <==> stack.global_marks.dom().contains(k),
    {
        match self.active_position() {
            Some(i) => self.stacks.value(i).list_global_marks(path),
            None => {
                let marks: Vec<GlobalMark> = Vec::new();
                assert(marks.deep_view() =~= Seq::<GlobalMarkView>::empty());
                marks
            },
        }
    }

    /// Gives the global marks at `path` and `lineno` of the active stack
    /// the new line number and the new description, as far as they are
    /// given. Returns `true` if and only if a mark was changed.
    pub fn update_global_mark(
        &mut self,
        path: String,
        lineno: i32,
        new_lineno: Option<i32>,
        new_desc: Option<String>,
    ) -> (updated: bool)
        ensures
            final(self)@ == old(self)@.update_global_mark(
                path@,
                lineno as int,
                number_of(new_lineno),
                text_of(new_desc),
            ),
            updated == ((new_lineno is Some || new_desc is Some) && (old(self)@.current() matches Some(
                stack,
            ) && stack.has_global_mark(path@, lineno as int))),
            !updated ==> final(self)@ == old(self)@,
            final(self).order() == old(self).order(),
    {
        let ghost table = self.stacks@;
        match self.active_position() {
            Some(i) => {
                let updated = self.stacks.value_mut(i).update_global_mark(
                    &path,
                    lineno,
                    new_lineno,
                    new_desc,
                );
                proof {
                    let stack = old(self)@.current()->0;
                    assert(stack_views(self.stacks@) =~= stack_views(table).insert(
                        old(self)@.active->0,
                        stack.update_global_mark(
                            path@,
                            lineno as int,
                            number_of(new_lineno),
                            text_of(new_desc),
                        ),
                    ));
                    if !updated {
                        lemma_update_global_idle(
                            stack,
                            path@,
                            lineno as int,
                            number_of(new_lineno),
                            text_of(new_desc),
                        );
                        assert(stack_views(self.stacks@) =~= stack_views(table));
                    }
                }
                updated
            },
            None => false,
        }
    }

    /// Sets a local mark in the active stack, in place of the marks at the
    /// same path and line. Returns `false`, and changes nothing, where there
    /// is no active stack.
    pub fn add_local_mark(&mut self, path: String, line: String, lineno: i32) -> (added: bool)
        ensures
            final(self)@ == old(self)@.add_local_mark(path@, line@, lineno as int),
            added == old(self)@.current() is Some,
            final(self).order() == old(self).order(),
    {
        let ghost table = self.stacks@;
        match self.active_position() {
            Some(i) => {
                self.stacks.value_mut(i).add_local_mark(path, line, lineno);
                assert(stack_views(self.stacks@) =~= stack_views(table).insert(
                    old(self)@.active->0,
                    old(self)@.current()->0.add_local_mark(path@, line@, lineno as int),
                ));
                true
            },
            None => false,
        }
    }

    /// Takes the local marks at `path` and `lineno` out of the active
    /// stack. Returns `true` if and only if a mark was taken out.
    pub fn remove_local_mark(&mut self, path: String, lineno: i32) -> (removed: bool)
        ensures
            final(self)@ == old(self)@.remove_local_mark(path@, lineno as int),
            removed == (old(self)@.current() matches Some(stack) && stack.has_local_mark(
                path@,
                lineno as int,
            )),
            !removed ==> final(self)@ == old(self)@,
            final(self).order() == old(self).order(),
    {
        let ghost table = self.stacks@;
        match self.active_position() {
            Some(i) => {
                let removed = self.stacks.value_mut(i).remove_local_mark(&path, lineno);
                proof {
                    let stack = old(self)@.current()->0;
                    assert(stack_views(self.stacks@) =~= stack_views(table).insert(
                        old(self)@.active->0,
                        stack.remove_local_mark(path@, lineno as int),
                    ));
                    if !removed {
                        lemma_remove_local_absent(stack, path@, lineno as int);
                        assert(stack_views(self.stacks@) =~= stack_views(table));
                    }
                }
                removed
            },
            None => false,
        }
    }

    /// The local marks of the active stack, oldest first; none where there
    /// is no active stack.
    pub fn list_local_marks(&self) -> (marks: Vec<LocalMark>)
        ensures
            marks.deep_view() == self@.local_marks(),
    {
        match self.active_position() {
            Some(i) => {
                let held = self.stacks.value(i).local_marks();
                let marks = held.clone();
                assert(marks.deep_view() =~= held.deep_view());
                marks
            },
            None => {
                let marks: Vec<LocalMark> = Vec::new();
                assert(marks.deep_view() =~= Seq::<LocalMarkView>::empty());
                marks
            },
        }
    }

    /// Moves the local marks at `path` and `lineno` of the active stack to
    /// `new_lineno`. Returns `true` if and only if a mark was moved.
    pub fn update_local_mark(&mut self, path: String, lineno: i32, new_lineno: Option<i32>) -> (updated:
        bool)
        ensures
            final(self)@ == old(self)@.update_local_mark(path@, lineno as int, number_of(new_lineno)),
            updated == (new_lineno is Some && (old(self)@.current() matches Some(stack)
                && stack.has_local_mark(path@, lineno as int))),
            !updated ==> final(self)@ == old(self)@,
            final(self).order() == old(self).order(),
    {
        let ghost table = self.stacks@;
        match self.active_position() {
            Some(i) => {
                let updated = self.stacks.value_mut(i).update_local_mark(&path, lineno, new_lineno);
                proof {
                    let stack = old(self)@.current()->0;
                    assert(stack_views(self.stacks@) =~= stack_views(table).insert(
                        old(self)@.active->0,
                        stack.update_local_mark(path@, lineno as int, number_of(new_lineno)),
                    ));
                    if !updated {
                        lemma_update_local_idle(stack, path@, lineno as int, number_of(new_lineno));
                        assert(stack_views(self.stacks@) =~= stack_views(table));
                    }
                }
                updated
            },
            None => false,
        }
    }
}

impl Clone for Stacks {
    fn clone(&self) -> (res: Self)
        ensures
            res@ == self@,
            res.order() == self.order(),
            forall|name: Seq<char>| self@.has(name) ==> #[trigger] res.paths(name) == self.paths(name),
    {
        proof {
            use_type_invariant(&self.stacks);
        }
        let res = Stacks { active: self.active.clone(), stacks: self.stacks.clone() };
        proof {
            use_type_invariant(&res.stacks);
            let keys = self.stacks.keys();
            assert forall|k: Seq<char>| keys.contains(k) implies #[trigger] res.stacks@[k]@
                == self.stacks@[k]@ && res.stacks@[k].paths() == self.stacks@[k].paths() by {
                let i = keys.index_of(k);
                lemma_map_of_index(keys, self.stacks.values(), i);
                lemma_map_of_index(keys, res.stacks.values(), i);
                assert(cloned::<Stack>(self.stacks.values()[i], res.stacks.values()[i]));
            }
            assert(stack_views(res.stacks@) =~= stack_views(self.stacks@));
        }
        res
    }
}

/// The values of the collections of a table of projects.
pub open spec fn project_views(projects: Map<Seq<char>, Stacks>) -> Map<Seq<char>, StacksView> {
    Map::new(|k: Seq<char>| projects.dom().contains(k), |k: Seq<char>| projects[k]@)
}

/// The projects that were found, each with its collection of stacks, and
/// the name of the project that calls are routed to.
pub struct StacksManager {
    pub active: Option<String>,
    projects: Table<Stacks>,
}

impl View for StacksManager {
    type V = StacksManagerView;

    closed spec fn view(&self) -> StacksManagerView {
        StacksManagerView { active: text_of(self.active), projects: project_views(self.projects@) }
    }
}

impl StacksManager {
    /// The names of the projects in the order in which `list_stacks` gives
    /// their collections.
    pub closed spec fn order(&self) -> Seq<Seq<char>> {
        self.projects.keys()
    }

    /// The collection of the active project, as it is held.
    pub closed spec fn stacks(&self) -> Option<Stacks> {
        match self.active {
            Some(name) => if self.projects@.dom().contains(name@) {
                Some(self.projects@[name@])
            } else {
                None
            },
            None => None,
        }
    }

    /// The collection that is held for the project called `name`.
    pub closed spec fn project(&self, name: Seq<char>) -> Stacks {
        self.projects@[name]
    }

    /// A registry of the projects of `projects`, each with the name of its
    /// directory, in which `project` is active, whether or not it is among
    /// them. Where two collections come under one name, the later one counts.
    pub fn new(project: String, projects: Vec<(String, Stacks)>) -> (manager: StacksManager)
        ensures
            manager@ == (StacksManagerView {
                active: Some(project@),
                projects: project_views(pairs_map(projects@)),
            }),
            manager.order() == pairs_keys(projects@),
    {
        StacksManager { active: Some(project), projects: Table::from_pairs(projects) }
    }

    /// The collection of the active project.
    pub fn get_stacks(&self) -> (stacks: Option<&Stacks>)
        ensures
            stacks.deep_view() == self@.current(),
            match stacks {
                Some(s) => self.stacks() == Some(*s),
                None => self.stacks() is None,
            },
    {
        match &self.active {
            Some(name) => match self.projects.position(name) {
                Some(i) => Some(self.projects.value(i)),
                None => None,
            },
            None => None,
        }
    }

    /// The collection of the active project, to be changed in place. The
    /// other projects stay as they are.
    pub fn get_stacks_mut(&mut self) -> (stacks: Option<&mut Stacks>)
        ensures
            match stacks {
                Some(s) => old(self).stacks() == Some(*s) && old(self)@.current() == Some(s@)
                    && final(self).stacks() == Some(*final(s)) && final(self)@ == old(
                    self,
                )@.with_current(final(s)@) && final(self).order() == old(self).order(),
                None => old(self).stacks() is None && old(self)@.current() is None && final(self)@
                    == old(self)@ && final(self).order() == old(self).order(),
            },
    {
        let found = match &self.active {
            Some(name) => self.projects.position(name),
            None => None,
        };
        match found {
            Some(i) => {
                let ghost table = self.projects@;
                let ghost key = self.projects.keys()[i as int];
                let stacks = self.projects.value_mut(i);
                proof {
                    assert(project_views(table.insert(key, *final(stacks))) =~= project_views(
                        table,
                    ).insert(key, final(stacks)@));
                }
                Some(stacks)
            },
            None => None,
        }
    }

    /// Clones of the collections of all projects, in the order of `order`.
    pub fn list_stacks(&self) -> (all: Vec<Stacks>)
        ensures
            all.len() == self.order().len(),
            forall|i: int|
                0 <= i < all.len() ==> (#[trigger] all[i])@ == self@.projects[self.order()[i]]
                    && all[i].order() == self.project(self.order()[i]).order(),
            self.order().no_duplicates(),
            forall|name: Seq<char>| #[trigger]
                self.order().contains(name) <==> self@.projects.dom().contains(name),
    {
        proof {
            use_type_invariant(&self.projects);
        }
        let mut all: Vec<Stacks> = Vec::new();
        let count = self.projects.len();
        let mut i: usize = 0;
        while i < count
            invariant
                i <= count,
                count == self.order().len(),
                self.projects.valid(),
                all.len() == i,
                forall|j: int|
                    0 <= j < i ==> (#[trigger] all[j])@ == self@.projects[self.order()[j]]
                        && all[j].order() == self.project(self.order()[j]).order(),
            decreases count - i,
        {
            proof {
                lemma_map_of_index(self.projects.keys(), self.projects.values(), i as int);
            }
            all.push(self.projects.value(i).clone());
            i += 1;
        }
        all
    }
}

} // verus!
