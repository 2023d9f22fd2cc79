use vstd::prelude::*;
use crate::buffers::PinnedBufferView;
use crate::marks::{GlobalMarkView, LocalMarkView};
use crate::seqs::lemma_filter_keeps_all;

verus! {

/// The plain value of an optional string.
pub open spec fn text_of(s: Option<String>) -> Option<Seq<char>> {
    match s {
        Some(s) => Some(s@),
        None => None,
    }
}

/// The plain value of an optional line number.
pub open spec fn number_of(n: Option<i32>) -> Option<int> {
    match n {
        Some(n) => Some(n as int),
        None => None,
    }
}

/// The test that a pinned buffer is for another path than `path`.
pub open spec fn pinned_elsewhere(path: Seq<char>) -> spec_fn(PinnedBufferView) -> bool {
    |b: PinnedBufferView| b.path != path
}

/// The test that a pinned buffer is for `path`.
pub open spec fn pinned_at(path: Seq<char>) -> spec_fn(PinnedBufferView) -> bool {
    |b: PinnedBufferView| b.path == path
}

/// The test that a local mark is not the one at `path` and `lineno`.
pub open spec fn local_elsewhere(path: Seq<char>, lineno: int) -> spec_fn(LocalMarkView) -> bool {
    |m: LocalMarkView| !(m.path == path && m.lineno == lineno)
}

/// The test that a global mark is not the one at `path` and `lineno`.
pub open spec fn global_elsewhere(path: Seq<char>, lineno: int) -> spec_fn(GlobalMarkView) -> bool {
    |m: GlobalMarkView| !(m.path == path && m.lineno == lineno)
}

/// Whether some mark of the bucket stands at line `lineno`.
pub open spec fn line_taken(bucket: Seq<GlobalMarkView>, lineno: int) -> bool {
    exists|i: int| 0 <= i < bucket.len() && (#[trigger] bucket[i]).lineno == lineno
}

/// The position of the first mark of the bucket at line `lineno`.
pub open spec fn first_at_line(bucket: Seq<GlobalMarkView>, lineno: int) -> int {
    choose|i: int|
        0 <= i < bucket.len() && (#[trigger] bucket[i]).lineno == lineno && forall|j: int|
            0 <= j < i ==> (#[trigger] bucket[j]).lineno != lineno
}

/// The first mark at line `lineno` from position `start` on.
proof fn lemma_find_first(bucket: Seq<GlobalMarkView>, lineno: int, start: int, some: int) -> (i: int)
    requires
        0 <= start <= some < bucket.len(),
        bucket[some].lineno == lineno,
        forall|j: int| 0 <= j < start ==> (#[trigger] bucket[j]).lineno != lineno,
    ensures
        0 <= i < bucket.len(),
        bucket[i].lineno == lineno,
        forall|j: int| 0 <= j < i ==> (#[trigger] bucket[j]).lineno != lineno,
    decreases some - start,
{
    if bucket[start].lineno == lineno {
        start
    } else {
        lemma_find_first(bucket, lineno, start + 1, some)
    }
}

/// Where a line is taken, `first_at_line` names the first mark at it.
pub proof fn lemma_first_at_line(bucket: Seq<GlobalMarkView>, lineno: int)
    requires
        line_taken(bucket, lineno),
    ensures
        0 <= first_at_line(bucket, lineno) < bucket.len(),
        bucket[first_at_line(bucket, lineno)].lineno == lineno,
        forall|j: int|
            0 <= j < first_at_line(bucket, lineno) ==> (#[trigger] bucket[j]).lineno != lineno,
{
    let some = choose|i: int| 0 <= i < bucket.len() && (#[trigger] bucket[i]).lineno == lineno;
    let i = lemma_find_first(bucket, lineno, 0, some);
}

/// The bucket after `mark` was set in it: the first mark at the same line
/// takes over the description and the line text of `mark`; where there is
/// none, `mark` goes to the end.
pub open spec fn bucket_with(bucket: Seq<GlobalMarkView>, mark: GlobalMarkView) -> Seq<
    GlobalMarkView,
> {
    if line_taken(bucket, mark.lineno) {
        let i = first_at_line(bucket, mark.lineno);
        bucket.update(i, GlobalMarkView { desc: mark.desc, line: mark.line, ..bucket[i] })
    } else {
        bucket.push(mark)
    }
}

/// A local mark after an update aimed at `path` and `lineno`: a mark that
/// stands there moves to the new line, where one is given.
pub open spec fn local_updated(
    mark: LocalMarkView,
    path: Seq<char>,
    lineno: int,
    new_lineno: Option<int>,
) -> LocalMarkView {
    if mark.path == path && mark.lineno == lineno && new_lineno is Some {
        LocalMarkView { lineno: new_lineno->0, ..mark }
    } else {
        mark
    }
}

/// A global mark after an update aimed at `path` and `lineno`: a mark that
/// stands there takes each of the new line and the new description that is
/// given.
pub open spec fn global_updated(
    mark: GlobalMarkView,
    path: Seq<char>,
    lineno: int,
    new_lineno: Option<int>,
    new_desc: Option<Seq<char>>,
) -> GlobalMarkView {
    if mark.path == path && mark.lineno == lineno {
        GlobalMarkView {
            lineno: if new_lineno is Some {
                new_lineno->0
            } else {
                mark.lineno
            },
            desc: if new_desc is Some {
                new_desc->0
            } else {
                mark.desc
            },
            ..mark
        }
    } else {
        mark
    }
}

/// The marks of the buckets named by `order`, bucket after bucket.
pub open spec fn buckets_in_order(
    order: Seq<Seq<char>>,
    buckets: Map<Seq<char>, Seq<GlobalMarkView>>,
) -> Seq<GlobalMarkView>
    decreases order.len(),
{
    if order.len() == 0 {
        Seq::empty()
    } else {
        buckets_in_order(order.drop_last(), buckets) + buckets[order.last()]
    }
}

/// The mathematical value of a [`Stack`].
pub ghost struct StackView {
    pub name: Seq<char>,
    pub pinned_buffers: Seq<PinnedBufferView>,
    pub local_marks: Seq<LocalMarkView>,
    pub global_marks: Map<Seq<char>, Seq<GlobalMarkView>>,
}

impl StackView {
    /// A stack that holds nothing.
    pub open spec fn empty(name: Seq<char>) -> StackView {
        StackView {
            name,
            pinned_buffers: Seq::empty(),
            local_marks: Seq::empty(),
            global_marks: Map::empty(),
        }
    }

    /// Whether a buffer is pinned for `path`.
    pub open spec fn has_pinned(self, path: Seq<char>) -> bool {
        exists|i: int|
            0 <= i < self.pinned_buffers.len() && (#[trigger] self.pinned_buffers[i]).path == path
    }

    /// The first buffer pinned for `path`.
    pub open spec fn pinned_buffer(self, path: Seq<char>) -> Option<PinnedBufferView> {
        let found = self.pinned_buffers.filter(pinned_at(path));
        if found.len() > 0 {
            Some(found[0])
        } else {
            None
        }
    }

    /// The stack after `path` was pinned under `label`: what was pinned for
    /// `path` is gone, and the new buffer stands at the end.
    pub open spec fn pin_buffer(self, path: Seq<char>, label: Seq<char>) -> StackView {
        StackView {
            pinned_buffers: self.pinned_buffers.filter(pinned_elsewhere(path)).push(
                PinnedBufferView { path, label },
            ),
            ..self
        }
    }

    /// The stack without the buffers pinned for `path`.
    pub open spec fn unpin_buffer(self, path: Seq<char>) -> StackView {
        StackView { pinned_buffers: self.pinned_buffers.filter(pinned_elsewhere(path)), ..self }
    }

    /// Whether a local mark stands at `path` and `lineno`.
    pub open spec fn has_local_mark(self, path: Seq<char>, lineno: int) -> bool {
        exists|i: int|
            0 <= i < self.local_marks.len() && (#[trigger] self.local_marks[i]).path == path
                && self.local_marks[i].lineno == lineno
    }

    /// The stack without the local marks at `path` and `lineno`.
    pub open spec fn remove_local_mark(self, path: Seq<char>, lineno: int) -> StackView {
        StackView { local_marks: self.local_marks.filter(local_elsewhere(path, lineno)), ..self }
    }

    /// The stack after a local mark was set: the marks at the same path and
    /// line are gone, and the new mark stands at the end.
    pub open spec fn add_local_mark(self, path: Seq<char>, line: Seq<char>, lineno: int) -> StackView {
        StackView {
            local_marks: self.local_marks.filter(local_elsewhere(path, lineno)).push(
                LocalMarkView { path, line, lineno },
            ),
            ..self
        }
    }

    /// The stack after its local marks at `path` and `lineno` were moved to
    /// `new_lineno`, where one is given.
    pub open spec fn update_local_mark(
        self,
        path: Seq<char>,
        lineno: int,
        new_lineno: Option<int>,
    ) -> StackView {
        StackView {
            local_marks: Seq::new(
                self.local_marks.len(),
                |i: int| local_updated(self.local_marks[i], path, lineno, new_lineno),
            ),
            ..self
        }
    }

    /// The global marks kept for `path`; none where the stack has no bucket
    /// for it.
    pub open spec fn bucket(self, path: Seq<char>) -> Seq<GlobalMarkView> {
        if self.global_marks.dom().contains(path) {
            self.global_marks[path]
        } else {
            Seq::empty()
        }
    }

    /// Whether the bucket of `path` holds a mark at `path` and `lineno`.
    pub open spec fn has_global_mark(self, path: Seq<char>, lineno: int) -> bool {
        exists|i: int|
            0 <= i < self.bucket(path).len() && (#[trigger] self.bucket(path)[i]).path == path
                && self.bucket(path)[i].lineno == lineno
    }

    /// The stack after a global mark was set in the bucket of `path`, in
    /// the name of the stack called `owner`.
    pub open spec fn add_global_mark(
        self,
        owner: Seq<char>,
        path: Seq<char>,
        desc: Seq<char>,
        line: Seq<char>,
        lineno: int,
    ) -> StackView {
        StackView {
            global_marks: self.global_marks.insert(
                path,
                bucket_with(
                    self.bucket(path),
                    GlobalMarkView { stack: owner, path, line, lineno, desc },
                ),
            ),
            ..self
        }
    }

    /// The stack without the global marks at `path` and `lineno`. The
    /// bucket stays, even when it is left empty.
    pub open spec fn remove_global_mark(self, path: Seq<char>, lineno: int) -> StackView {
        if self.global_marks.dom().contains(path) {
            StackView {
                global_marks: self.global_marks.insert(
                    path,
                    self.global_marks[path].filter(global_elsewhere(path, lineno)),
                ),
                ..self
            }
        } else {
            self
        }
    }

    /// The stack after its global marks at `path` and `lineno` took the new
    /// line and the new description, as far as they are given.
    pub open spec fn update_global_mark(
        self,
        path: Seq<char>,
        lineno: int,
        new_lineno: Option<int>,
        new_desc: Option<Seq<char>>,
    ) -> StackView {
        if self.global_marks.dom().contains(path) {
            StackView {
                global_marks: self.global_marks.insert(
                    path,
                    Seq::new(
                        self.global_marks[path].len(),
                        |i: int|
                            global_updated(
                                self.global_marks[path][i],
                                path,
                                lineno,
                                new_lineno,
                                new_desc,
                            ),
                    ),
                ),
                ..self
            }
        } else {
            self
        }
    }
}

/// Unpinning a path for which nothing is pinned changes nothing.
pub proof fn lemma_unpin_absent(stack: StackView, path: Seq<char>)
    requires
        !stack.has_pinned(path),
    ensures
        stack.unpin_buffer(path) == stack,
{
    lemma_filter_keeps_all(stack.pinned_buffers, pinned_elsewhere(path));
}

/// Removing a local mark that is not there changes nothing.
pub proof fn lemma_remove_local_absent(stack: StackView, path: Seq<char>, lineno: int)
    requires
        !stack.has_local_mark(path, lineno),
    ensures
        stack.remove_local_mark(path, lineno) == stack,
{
    lemma_filter_keeps_all(stack.local_marks, local_elsewhere(path, lineno));
}

/// Removing a global mark that is not there changes nothing.
pub proof fn lemma_remove_global_absent(stack: StackView, path: Seq<char>, lineno: int)
    requires
        !stack.has_global_mark(path, lineno),
    ensures
        stack.remove_global_mark(path, lineno) == stack,
{
    if stack.global_marks.dom().contains(path) {
        let bucket = stack.global_marks[path];
        assert forall|i: int| 0 <= i < bucket.len() implies global_elsewhere(path, lineno)(
            #[trigger] bucket[i],
        ) by {
            assert(stack.bucket(path)[i] == bucket[i]);
        }
        lemma_filter_keeps_all(bucket, global_elsewhere(path, lineno));
        assert(stack.global_marks.insert(path, bucket) =~= stack.global_marks);
    }
}

/// An update of local marks that names no new line, or finds no mark,
/// changes nothing.
pub proof fn lemma_update_local_idle(
    stack: StackView,
    path: Seq<char>,
    lineno: int,
    new_lineno: Option<int>,
)
    requires
        new_lineno is None || !stack.has_local_mark(path, lineno),
    ensures
        stack.update_local_mark(path, lineno, new_lineno) == stack,
{
    assert(stack.update_local_mark(path, lineno, new_lineno).local_marks =~= stack.local_marks);
}

/// An update of global marks that names nothing new, or finds no mark,
/// changes nothing.
pub proof fn lemma_update_global_idle(
    stack: StackView,
    path: Seq<char>,
    lineno: int,
    new_lineno: Option<int>,
    new_desc: Option<Seq<char>>,
)
    requires
        (new_lineno is None && new_desc is None) || !stack.has_global_mark(path, lineno),
    ensures
        stack.update_global_mark(path, lineno, new_lineno, new_desc) == stack,
{
    if stack.global_marks.dom().contains(path) {
        let bucket = stack.global_marks[path];
        let changed = stack.update_global_mark(path, lineno, new_lineno, new_desc).global_marks[path];
        assert forall|i: int| 0 <= i < bucket.len() implies changed[i] == bucket[i] by {
            assert(stack.bucket(path)[i] == bucket[i]);
        }
        assert(changed =~= bucket);
        assert(stack.global_marks.insert(path, bucket) =~= stack.global_marks);
    }
}

/// The mathematical value of a [`Stacks`]: the stacks of one project by
/// name, and the name of the active one.
pub ghost struct StacksView {
    pub active: Option<Seq<char>>,
    pub stacks: Map<Seq<char>, StackView>,
}

impl StacksView {
    /// A collection without stacks.
    pub open spec fn empty() -> StacksView {
        StacksView { active: None, stacks: Map::empty() }
    }

    /// Whether the collection holds a stack under `name`.
    pub open spec fn has(self, name: Seq<char>) -> bool {
        self.stacks.dom().contains(name)
    }

    /// The active name, where there is one, names a stack of the
    /// collection.
    pub open spec fn consistent(self) -> bool {
        self.active matches Some(name) ==> self.has(name)
    }

    /// The stack under `name`, or the active stack where no name is given.
    pub open spec fn get(self, name: Option<Seq<char>>) -> Option<StackView> {
        let wanted = if name is Some {
            name
        } else {
            self.active
        };
        match wanted {
            Some(n) => if self.has(n) {
                Some(self.stacks[n])
            } else {
                None
            },
            None => None,
        }
    }

    /// The active stack. There is none where no name is active or the
    /// active name names no stack.
    pub open spec fn current(self) -> Option<StackView> {
        self.get(None)
    }

    /// The pinned buffers of the active stack; none without an active
    /// stack.
    pub open spec fn pinned_buffers(self) -> Seq<PinnedBufferView> {
        match self.current() {
            Some(stack) => stack.pinned_buffers,
            None => Seq::empty(),
        }
    }

    /// The first buffer that the active stack has pinned for `path`.
    pub open spec fn pinned_buffer(self, path: Seq<char>) -> Option<PinnedBufferView> {
        match self.current() {
            Some(stack) => stack.pinned_buffer(path),
            None => None,
        }
    }

    /// The local marks of the active stack; none without an active stack.
    pub open spec fn local_marks(self) -> Seq<LocalMarkView> {
        match self.current() {
            Some(stack) => stack.local_marks,
            None => Seq::empty(),
        }
    }

    /// The collection with `stack` in the place of the active stack.
    pub open spec fn with_current(self, stack: StackView) -> StacksView {
        StacksView { stacks: self.stacks.insert(self.active->0, stack), ..self }
    }

    /// The collection after `add`: a new empty stack under `name`, which is
    /// then active. A name that is taken changes nothing.
    pub open spec fn add(self, name: Seq<char>) -> StacksView {
        if self.has(name) {
            self
        } else {
            StacksView {
                active: Some(name),
                stacks: self.stacks.insert(name, StackView::empty(name)),
            }
        }
    }

    /// The collection after `set_active`: `name` is active where it names
    /// a stack.
    pub open spec fn set_active(self, name: Seq<char>) -> StacksView {
        if self.has(name) {
            StacksView { active: Some(name), ..self }
        } else {
            self
        }
    }

    /// Whether `name` is the active name.
    pub open spec fn is_active(self, name: Seq<char>) -> bool {
        self.active == Some(name)
    }

    /// The collection after `remove`: the stack under `name` is gone, and
    /// no stack is active if it was the active one.
    pub open spec fn remove(self, name: Seq<char>) -> StacksView {
        if self.has(name) {
            StacksView {
                active: if self.is_active(name) {
                    None
                } else {
                    self.active
                },
                stacks: self.stacks.remove(name),
            }
        } else {
            self
        }
    }

    /// The collection after `rename`: the stack under `old_name` stands
    /// under `new_name`, carries that name, and is active if it was. Nothing
    /// changes where `old_name` names no stack or `new_name` is taken.
    pub open spec fn rename(self, old_name: Seq<char>, new_name: Seq<char>) -> StacksView {
        if self.has(old_name) && !self.has(new_name) {
            StacksView {
                active: if self.is_active(old_name) {
                    Some(new_name)
                } else {
                    self.active
                },
                stacks: self.stacks.remove(old_name).insert(
                    new_name,
                    StackView { name: new_name, ..self.stacks[old_name] },
                ),
            }
        } else {
            self
        }
    }

    /// The collection after `path` was pinned under `label` in the active
    /// stack.
    pub open spec fn pin_buffer(self, path: Seq<char>, label: Seq<char>) -> StacksView {
        match self.current() {
            Some(stack) => self.with_current(stack.pin_buffer(path, label)),
            None => self,
        }
    }

    /// The collection after `path` was unpinned in the active stack.
    pub open spec fn unpin_buffer(self, path: Seq<char>) -> StacksView {
        match self.current() {
            Some(stack) => self.with_current(stack.unpin_buffer(path)),
            None => self,
        }
    }

    /// The collection after a global mark was set in the active stack.
    pub open spec fn add_global_mark(
        self,
        path: Seq<char>,
        desc: Seq<char>,
        line: Seq<char>,
        lineno: int,
    ) -> StacksView {
        match self.current() {
            Some(stack) => self.with_current(
                stack.add_global_mark(self.active->0, path, desc, line, lineno),
            ),
            None => self,
        }
    }

    /// The collection after the global marks at `path` and `lineno` were
    /// taken out of the active stack.
    pub open spec fn remove_global_mark(self, path: Seq<char>, lineno: int) -> StacksView {
        match self.current() {
            Some(stack) => self.with_current(stack.remove_global_mark(path, lineno)),
            None => self,
        }
    }

    /// The collection after the global marks at `path` and `lineno` of the
    /// active stack were updated.
    pub open spec fn update_global_mark(
        self,
        path: Seq<char>,
        lineno: int,
        new_lineno: Option<int>,
        new_desc: Option<Seq<char>>,
    ) -> StacksView {
        match self.current() {
            Some(stack) => self.with_current(
                stack.update_global_mark(path, lineno, new_lineno, new_desc),
            ),
            None => self,
        }
    }

    /// The collection after a local mark was set in the active stack.
    pub open spec fn add_local_mark(self, path: Seq<char>, line: Seq<char>, lineno: int) -> StacksView {
        match self.current() {
            Some(stack) => self.with_current(stack.add_local_mark(path, line, lineno)),
            None => self,
        }
    }

    /// The collection after the local marks at `path` and `lineno` were
    /// taken out of the active stack.
    pub open spec fn remove_local_mark(self, path: Seq<char>, lineno: int) -> StacksView {
        match self.current() {
            Some(stack) => self.with_current(stack.remove_local_mark(path, lineno)),
            None => self,
        }
    }

    /// The collection after the local marks at `path` and `lineno` of the
    /// active stack were moved to `new_lineno`.
    pub open spec fn update_local_mark(
        self,
        path: Seq<char>,
        lineno: int,
        new_lineno: Option<int>,
    ) -> StacksView {
        match self.current() {
            Some(stack) => self.with_current(stack.update_local_mark(path, lineno, new_lineno)),
            None => self,
        }
    }
}

/// The mathematical value of a [`StacksManager`]: the collection of each
/// project by the project's name, and the name of the active project.
pub ghost struct StacksManagerView {
    pub active: Option<Seq<char>>,
    pub projects: Map<Seq<char>, StacksView>,
}

impl StacksManagerView {
    /// The collection of the active project. There is none where no
    /// project is active or the active project has no collection.
    pub open spec fn current(self) -> Option<StacksView> {
        match self.active {
            Some(name) => if self.projects.dom().contains(name) {
                Some(self.projects[name])
            } else {
                None
            },
            None => None,
        }
    }

    /// The registry with `stacks` in the place of the active project's
    /// collection.
    pub open spec fn with_current(self, stacks: StacksView) -> StacksManagerView {
        StacksManagerView { projects: self.projects.insert(self.active->0, stacks), ..self }
    }
}

} // verus!
