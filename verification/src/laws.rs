use vstd::prelude::*;
use crate::buffers::PinnedBufferView;
use crate::marks::{GlobalMarkView, LocalMarkView};
use crate::seqs::{lemma_filter_distinct_by, lemma_filter_drops_all, lemma_filter_members};
use crate::model::{
    bucket_with, first_at_line, global_elsewhere, lemma_first_at_line, line_taken, local_elsewhere,
    pinned_at, pinned_elsewhere, StackView, StacksView,
};

verus! {

/// A call that changes a collection of stacks.
pub ghost enum Call {
    Add { name: Seq<char> },
    Remove { name: Seq<char> },
    Rename { old_name: Seq<char>, new_name: Seq<char> },
    SetActive { name: Seq<char> },
    PinBuffer { path: Seq<char>, label: Seq<char> },
    UnpinBuffer { path: Seq<char> },
    AddGlobalMark { path: Seq<char>, desc: Seq<char>, line: Seq<char>, lineno: int },
    RemoveGlobalMark { path: Seq<char>, lineno: int },
    UpdateGlobalMark {
        path: Seq<char>,
        lineno: int,
        new_lineno: Option<int>,
        new_desc: Option<Seq<char>>,
    },
    AddLocalMark { path: Seq<char>, line: Seq<char>, lineno: int },
    RemoveLocalMark { path: Seq<char>, lineno: int },
    UpdateLocalMark { path: Seq<char>, lineno: int, new_lineno: Option<int> },
}

impl Call {
    /// Whether the call leaves every mark at its line: every call does but
    /// an update that names a new line.
    pub open spec fn keeps_lines(self) -> bool {
        match self {
            Call::UpdateGlobalMark { new_lineno, .. } => new_lineno is None,
            Call::UpdateLocalMark { new_lineno, .. } => new_lineno is None,
            _ => true,
        }
    }
}

/// The stack after `call`, where it is the active stack of a collection in
/// which it stands under `owner`. A call on the collection as a whole
/// leaves it as it is.
pub open spec fn stack_after(stack: StackView, owner: Seq<char>, call: Call) -> StackView {
    match call {
        Call::PinBuffer { path, label } => stack.pin_buffer(path, label),
        Call::UnpinBuffer { path } => stack.unpin_buffer(path),
        Call::AddGlobalMark { path, desc, line, lineno } => stack.add_global_mark(
            owner,
            path,
            desc,
            line,
            lineno,
        ),
        Call::RemoveGlobalMark { path, lineno } => stack.remove_global_mark(path, lineno),
        Call::UpdateGlobalMark { path, lineno, new_lineno, new_desc } => stack.update_global_mark(
            path,
            lineno,
            new_lineno,
            new_desc,
        ),
        Call::AddLocalMark { path, line, lineno } => stack.add_local_mark(path, line, lineno),
        Call::RemoveLocalMark { path, lineno } => stack.remove_local_mark(path, lineno),
        Call::UpdateLocalMark { path, lineno, new_lineno } => stack.update_local_mark(
            path,
            lineno,
            new_lineno,
        ),
        _ => stack,
    }
}

/// The collection after `call`.
pub open spec fn after(stacks: StacksView, call: Call) -> StacksView {
    match call {
        Call::Add { name } => stacks.add(name),
        Call::Remove { name } => stacks.remove(name),
        Call::Rename { old_name, new_name } => stacks.rename(old_name, new_name),
        Call::SetActive { name } => stacks.set_active(name),
        Call::PinBuffer { path, label } => stacks.pin_buffer(path, label),
        Call::UnpinBuffer { path } => stacks.unpin_buffer(path),
        Call::AddGlobalMark { path, desc, line, lineno } => stacks.add_global_mark(
            path,
            desc,
            line,
            lineno,
        ),
        Call::RemoveGlobalMark { path, lineno } => stacks.remove_global_mark(path, lineno),
        Call::UpdateGlobalMark { path, lineno, new_lineno, new_desc } => stacks.update_global_mark(
            path,
            lineno,
            new_lineno,
            new_desc,
        ),
        Call::AddLocalMark { path, line, lineno } => stacks.add_local_mark(path, line, lineno),
        Call::RemoveLocalMark { path, lineno } => stacks.remove_local_mark(path, lineno),
        Call::UpdateLocalMark { path, lineno, new_lineno } => stacks.update_local_mark(
            path,
            lineno,
            new_lineno,
        ),
    }
}

/// The collection after the calls of `calls`, one after the other.
pub open spec fn after_all(stacks: StacksView, calls: Seq<Call>) -> StacksView
    decreases calls.len(),
{
    if calls.len() == 0 {
        stacks
    } else {
        after(after_all(stacks, calls.drop_last()), calls.last())
    }
}

/// Whether two pinned buffers are for one path.
pub open spec fn same_path(a: PinnedBufferView, b: PinnedBufferView) -> bool {
    a.path == b.path
}

/// Whether two local marks stand at one path and line.
pub open spec fn same_local_place(a: LocalMarkView, b: LocalMarkView) -> bool {
    a.path == b.path && a.lineno == b.lineno
}

/// Whether two global marks stand at one path and line.
pub open spec fn same_global_place(a: GlobalMarkView, b: GlobalMarkView) -> bool {
    a.path == b.path && a.lineno == b.lineno
}

/// No two buffers are pinned for one path.
pub open spec fn one_buffer_per_path(buffers: Seq<PinnedBufferView>) -> bool {
    forall|i: int, j: int|
        0 <= i < buffers.len() && 0 <= j < buffers.len() && i != j ==> !#[trigger] same_path(
            buffers[i],
            buffers[j],
        )
}

/// No two local marks stand at one path and line.
pub open spec fn one_local_mark_per_line(marks: Seq<LocalMarkView>) -> bool {
    forall|i: int, j: int|
        0 <= i < marks.len() && 0 <= j < marks.len() && i != j ==> !#[trigger] same_local_place(
            marks[i],
            marks[j],
        )
}

/// No two global marks of the bucket stand at one path and line.
pub open spec fn one_global_mark_per_line(bucket: Seq<GlobalMarkView>) -> bool {
    forall|i: int, j: int|
        0 <= i < bucket.len() && 0 <= j < bucket.len() && i != j ==> !#[trigger] same_global_place(
            bucket[i],
            bucket[j],
        )
}

/// In the stack no two local marks stand at one path and line, and in no
/// bucket two global marks do.
pub open spec fn marks_distinct(stack: StackView) -> bool {
    &&& one_local_mark_per_line(stack.local_marks)
    &&& forall|path: Seq<char>| #[trigger]
        stack.global_marks.dom().contains(path) ==> one_global_mark_per_line(
            stack.global_marks[path],
        )
}

/// The marks of every stack of the collection are distinct.
pub open spec fn all_marks_distinct(stacks: StacksView) -> bool {
    forall|name: Seq<char>| #[trigger] stacks.has(name) ==> marks_distinct(stacks.stacks[name])
}

/// Idempotence of pinning: after `path` was pinned, the stack holds exactly
/// one buffer for it, the one that was pinned last; and a stack with one
/// buffer per path stays so.
pub proof fn lemma_pin_buffer_once(stack: StackView, path: Seq<char>, first: Seq<char>, label: Seq<char>)
    ensures
        stack.pin_buffer(path, label).pinned_buffers.filter(pinned_at(path)) == seq![
            PinnedBufferView { path, label },
        ],
        stack.pin_buffer(path, first).pin_buffer(path, label).pinned_buffers.filter(pinned_at(path))
            == seq![PinnedBufferView { path, label }],
        stack.pin_buffer(path, label).pinned_buffer(path) == Some(PinnedBufferView { path, label }),
        one_buffer_per_path(stack.pinned_buffers) ==> one_buffer_per_path(
            stack.pin_buffer(path, label).pinned_buffers,
        ),
{
    lemma_pinned_once(stack.pinned_buffers, path, label);
    lemma_pinned_once(stack.pin_buffer(path, first).pinned_buffers, path, label);
    if one_buffer_per_path(stack.pinned_buffers) {
        let kept = stack.pinned_buffers.filter(pinned_elsewhere(path));
        let all = kept.push(PinnedBufferView { path, label });
        let alike = |a: PinnedBufferView, b: PinnedBufferView| same_path(a, b);
        lemma_filter_distinct_by(stack.pinned_buffers, pinned_elsewhere(path), alike);
        lemma_filter_members(stack.pinned_buffers, pinned_elsewhere(path));
        assert forall|i: int, j: int|
            0 <= i < all.len() && 0 <= j < all.len() && i != j implies !#[trigger] same_path(
            all[i],
            all[j],
        ) by {
            if i < kept.len() && j < kept.len() {
                assert(!alike(kept[i], kept[j]));
            } else if i < kept.len() {
                assert(kept.contains(kept[i]));
            } else {
                assert(kept.contains(kept[j]));
            }
        }
    }
}

proof fn lemma_pinned_once(buffers: Seq<PinnedBufferView>, path: Seq<char>, label: Seq<char>)
    ensures
        buffers.filter(pinned_elsewhere(path)).push(PinnedBufferView { path, label }).filter(
            pinned_at(path),
        ) == seq![PinnedBufferView { path, label }],
{
    let kept = buffers.filter(pinned_elsewhere(path));
    lemma_filter_members(buffers, pinned_elsewhere(path));
    assert forall|i: int| 0 <= i < kept.len() implies !pinned_at(path)(#[trigger] kept[i]) by {
        assert(kept.contains(kept[i]));
    }
    lemma_filter_drops_all(kept, pinned_at(path));
    kept.lemma_filter_push(PinnedBufferView { path, label }, pinned_at(path));
    assert(Seq::<PinnedBufferView>::empty().push(PinnedBufferView { path, label }) =~= seq![
        PinnedBufferView { path, label },
    ]);
}

/// Idempotence of pinning in a collection: after `path` was pinned twice
/// in the active stack, that stack holds exactly one buffer for it, the one
/// that was pinned last.
pub proof fn lemma_pin_buffer_twice(
    stacks: StacksView,
    path: Seq<char>,
    first: Seq<char>,
    label: Seq<char>,
)
    requires
        stacks.current() is Some,
    ensures
        stacks.pin_buffer(path, first).pin_buffer(path, label).pinned_buffers().filter(
            pinned_at(path),
        ) == seq![PinnedBufferView { path, label }],
        stacks.pin_buffer(path, first).pin_buffer(path, label).pinned_buffer(path) == Some(
            PinnedBufferView { path, label },
        ),
{
    let stack = stacks.current()->0;
    lemma_pin_buffer_once(stack, path, first, label);
    lemma_pin_buffer_once(stack.pin_buffer(path, first), path, first, label);
}

/// Setting a local mark keeps the local marks distinct, and leaves exactly
/// the new mark at its path and line.
pub proof fn lemma_add_local_mark_distinct(
    stack: StackView,
    path: Seq<char>,
    line: Seq<char>,
    lineno: int,
)
    requires
        one_local_mark_per_line(stack.local_marks),
    ensures
        one_local_mark_per_line(stack.add_local_mark(path, line, lineno).local_marks),
        stack.add_local_mark(path, line, lineno).has_local_mark(path, lineno),
{
    let keep = local_elsewhere(path, lineno);
    let kept = stack.local_marks.filter(keep);
    let mark = LocalMarkView { path, line, lineno };
    let all = kept.push(mark);
    let alike = |a: LocalMarkView, b: LocalMarkView| same_local_place(a, b);
    lemma_filter_distinct_by(stack.local_marks, keep, alike);
    lemma_filter_members(stack.local_marks, keep);
    assert forall|i: int, j: int|
        0 <= i < all.len() && 0 <= j < all.len() && i != j implies !#[trigger] same_local_place(
        all[i],
        all[j],
    ) by {
        if i < kept.len() && j < kept.len() {
            assert(!alike(kept[i], kept[j]));
        } else if i < kept.len() {
            assert(kept.contains(kept[i]));
        } else {
            assert(kept.contains(kept[j]));
        }
    }
    assert(all[kept.len() as int] == mark);
}

/// Setting a global mark keeps the marks of a bucket distinct, and leaves
/// a mark at the line.
pub proof fn lemma_bucket_with_distinct(bucket: Seq<GlobalMarkView>, mark: GlobalMarkView)
    requires
        one_global_mark_per_line(bucket),
    ensures
        one_global_mark_per_line(bucket_with(bucket, mark)),
        line_taken(bucket_with(bucket, mark), mark.lineno),
{
    let all = bucket_with(bucket, mark);
    if line_taken(bucket, mark.lineno) {
        lemma_first_at_line(bucket, mark.lineno);
        let i = first_at_line(bucket, mark.lineno);
        assert(all[i].lineno == mark.lineno);
        assert forall|a: int, b: int|
            0 <= a < all.len() && 0 <= b < all.len() && a != b implies !#[trigger] same_global_place(
            all[a],
            all[b],
        ) by {
            assert(!same_global_place(bucket[a], bucket[b]));
        }
    } else {
        assert(all[bucket.len() as int].lineno == mark.lineno);
        assert forall|a: int, b: int|
            0 <= a < all.len() && 0 <= b < all.len() && a != b implies !#[trigger] same_global_place(
            all[a],
            all[b],
        ) by {
            if a < bucket.len() && b < bucket.len() {
                assert(!same_global_place(bucket[a], bucket[b]));
            } else if a < bucket.len() {
                assert(bucket[a].lineno != mark.lineno);
            } else {
                assert(bucket[b].lineno != mark.lineno);
            }
        }
    }
}

/// A call that keeps the lines keeps the marks of a stack distinct.
proof fn lemma_stack_marks_distinct(stack: StackView, owner: Seq<char>, call: Call)
    requires
        marks_distinct(stack),
        call.keeps_lines(),
    ensures
        marks_distinct(stack_after(stack, owner, call)),
{
    let next = stack_after(stack, owner, call);
    match call {
        Call::AddGlobalMark { path, desc, line, lineno } => {
            let mark = GlobalMarkView { stack: owner, path, line, lineno, desc };
            assert(one_global_mark_per_line(stack.bucket(path))) by {
                if stack.global_marks.dom().contains(path) {
                    assert(one_global_mark_per_line(stack.global_marks[path]));
                }
            }
            lemma_bucket_with_distinct(stack.bucket(path), mark);
            assert forall|p: Seq<char>| #[trigger]
                next.global_marks.dom().contains(p) implies one_global_mark_per_line(
                next.global_marks[p],
            ) by {
                if p != path {
                    assert(stack.global_marks.dom().contains(p));
                }
            }
        },
        Call::RemoveGlobalMark { path, lineno } => {
            if stack.global_marks.dom().contains(path) {
                let bucket = stack.global_marks[path];
                let kept = bucket.filter(global_elsewhere(path, lineno));
                assert(one_global_mark_per_line(bucket));
                let alike = |a: GlobalMarkView, b: GlobalMarkView| same_global_place(a, b);
                lemma_filter_distinct_by(bucket, global_elsewhere(path, lineno), alike);
                assert forall|a: int, b: int|
                    0 <= a < kept.len() && 0 <= b < kept.len() && a != b
                        implies !#[trigger] same_global_place(kept[a], kept[b]) by {
                    assert(!alike(kept[a], kept[b]));
                }
                assert forall|p: Seq<char>| #[trigger]
                    next.global_marks.dom().contains(p) implies one_global_mark_per_line(
                    next.global_marks[p],
                ) by {
                    if p != path {
                        assert(stack.global_marks.dom().contains(p));
                    }
                }
            }
        },
        Call::UpdateGlobalMark { path, lineno, new_lineno, new_desc } => {
            if stack.global_marks.dom().contains(path) {
                let bucket = stack.global_marks[path];
                let changed = next.global_marks[path];
                assert(one_global_mark_per_line(bucket));
                assert forall|a: int, b: int|
                    0 <= a < changed.len() && 0 <= b < changed.len() && a != b
                        implies !#[trigger] same_global_place(changed[a], changed[b]) by {
                    assert(!same_global_place(bucket[a], bucket[b]));
                }
                assert forall|p: Seq<char>| #[trigger]
                    next.global_marks.dom().contains(p) implies one_global_mark_per_line(
                    next.global_marks[p],
                ) by {
                    if p != path {
                        assert(stack.global_marks.dom().contains(p));
                    }
                }
            }
        },
        Call::AddLocalMark { path, line, lineno } => {
            lemma_add_local_mark_distinct(stack, path, line, lineno);
        },
        Call::RemoveLocalMark { path, lineno } => {
            let kept = stack.local_marks.filter(local_elsewhere(path, lineno));
            let alike = |a: LocalMarkView, b: LocalMarkView| same_local_place(a, b);
            lemma_filter_distinct_by(stack.local_marks, local_elsewhere(path, lineno), alike);
            assert forall|a: int, b: int|
                0 <= a < kept.len() && 0 <= b < kept.len() && a != b
                    implies !#[trigger] same_local_place(kept[a], kept[b]) by {
                assert(!alike(kept[a], kept[b]));
            }
        },
        Call::UpdateLocalMark { path, lineno, new_lineno } => {
            assert(next.local_marks =~= stack.local_marks);
        },
        _ => {},
    }
}

/// Uniqueness of marks: a call that keeps the lines, such as setting a
/// local or a global mark, keeps the marks of every stack distinct.
pub proof fn lemma_marks_distinct_after(stacks: StacksView, call: Call)
    requires
        all_marks_distinct(stacks),
        call.keeps_lines(),
    ensures
        all_marks_distinct(after(stacks, call)),
{
    let next = after(stacks, call);
    match call {
        Call::Add { name } => {
            assert forall|n: Seq<char>| #[trigger] next.has(n) implies marks_distinct(
                next.stacks[n],
            ) by {
                if n != name {
                    assert(stacks.has(n));
                }
            }
        },
        Call::Remove { name } => {
            assert forall|n: Seq<char>| #[trigger] next.has(n) implies marks_distinct(
                next.stacks[n],
            ) by {
                assert(stacks.has(n));
            }
        },
        Call::Rename { old_name, new_name } => {
            assert forall|n: Seq<char>| #[trigger] next.has(n) implies marks_distinct(
                next.stacks[n],
            ) by {
                if stacks.has(old_name) && !stacks.has(new_name) {
                    assert(stacks.has(old_name));
                    if n != new_name {
                        assert(stacks.has(n));
                    }
                } else {
                    assert(stacks.has(n));
                }
            }
        },
        Call::SetActive { name } => {
            assert forall|n: Seq<char>| #[trigger] next.has(n) implies marks_distinct(
                next.stacks[n],
            ) by {
                assert(stacks.has(n));
            }
        },
        _ => {
            match stacks.current() {
                Some(stack) => {
                    let owner = stacks.active->0;
                    assert(stacks.has(owner));
                    lemma_stack_marks_distinct(stack, owner, call);
                    assert(next == stacks.with_current(stack_after(stack, owner, call)));
                    assert forall|n: Seq<char>| #[trigger] next.has(n) implies marks_distinct(
                        next.stacks[n],
                    ) by {
                        if n != owner {
                            assert(stacks.has(n));
                        }
                    }
                },
                None => {},
            }
        },
    }
}

/// Uniqueness of marks over a run of calls: where the marks are distinct
/// at the start, as they are in a collection without stacks, they are
/// distinct after each call of a run of calls that keep the lines.
pub proof fn lemma_marks_distinct_after_all(stacks: StacksView, calls: Seq<Call>)
    requires
        all_marks_distinct(stacks),
        forall|i: int| 0 <= i < calls.len() ==> (#[trigger] calls[i]).keeps_lines(),
    ensures
        all_marks_distinct(StacksView::empty()),
        forall|k: int|
            0 <= k <= calls.len() ==> all_marks_distinct(#[trigger] after_all(stacks, calls.take(k))),
    decreases calls.len(),
{
    assert forall|k: int| 0 <= k <= calls.len() implies all_marks_distinct(
        #[trigger] after_all(stacks, calls.take(k)),
    ) by {
        if k == 0 {
            assert(calls.take(0) =~= Seq::<Call>::empty());
        } else if k < calls.len() {
            lemma_marks_distinct_after_all(stacks, calls.drop_last());
            assert(calls.drop_last().take(k) =~= calls.take(k));
        } else {
            lemma_marks_distinct_after_all(stacks, calls.drop_last());
            assert(calls.take(k) =~= calls);
            assert(calls.drop_last().take(calls.len() - 1) =~= calls.drop_last());
            lemma_marks_distinct_after(after_all(stacks, calls.drop_last()), calls.last());
        }
    }
}

/// Consistency of the active stack: where the active name names a stack,
/// it does so after every call.
pub proof fn lemma_consistent_after(stacks: StacksView, call: Call)
    requires
        stacks.consistent(),
    ensures
        after(stacks, call).consistent(),
{
}

/// Consistency of the active stack over a run of calls, from a collection
/// without stacks or any other consistent one.
pub proof fn lemma_consistent_after_all(stacks: StacksView, calls: Seq<Call>)
    requires
        stacks.consistent(),
    ensures
        StacksView::empty().consistent(),
        after_all(stacks, calls).consistent(),
    decreases calls.len(),
{
    if calls.len() > 0 {
        lemma_consistent_after_all(stacks, calls.drop_last());
        lemma_consistent_after(after_all(stacks, calls.drop_last()), calls.last());
    }
}

/// Removing the active stack leaves no stack active.
pub proof fn lemma_remove_active(stacks: StacksView, name: Seq<char>)
    requires
        stacks.has(name),
        stacks.is_active(name),
    ensures
        stacks.remove(name).active is None,
        stacks.remove(name).current() is None,
        !stacks.remove(name).has(name),
{
}

/// Renaming the active stack makes the new name the active one, and the
/// active stack is the renamed stack.
pub proof fn lemma_rename_active(stacks: StacksView, old_name: Seq<char>, new_name: Seq<char>)
    requires
        stacks.has(old_name),
        !stacks.has(new_name),
        stacks.is_active(old_name),
    ensures
        stacks.rename(old_name, new_name).active == Some(new_name),
        stacks.rename(old_name, new_name).current() == Some(
            StackView { name: new_name, ..stacks.stacks[old_name] },
        ),
        !stacks.rename(old_name, new_name).has(old_name),
{
}

} // verus!
