use vstd::prelude::*;

pub mod buffers;
pub mod errors;
pub mod laws;
pub mod marks;
pub mod model;
pub mod seqs;
pub mod sorting;
pub mod stacks;
pub mod table;

use crate::buffers::{PinnedBuffer, RecentFiles, RecentFilesView};
use crate::errors::Errors;
use crate::marks::{GlobalMark, GlobalMarkView, LocalMark, LocalMarkView};
use crate::sorting::{sort_by_desc, sorted_by_desc};
use crate::model::{buckets_in_order, number_of, text_of, StacksManagerView, StacksView};
use crate::stacks::{Stack, Stacks, StacksManager};

verus! {

/// The state that all calls work on: the registry of projects and the list
/// of recent files, each absent until `setup` has run.
pub struct Context {
    pub stacks: Option<StacksManager>,
    pub recent_files: Option<RecentFiles>,
}

/// The mathematical value of a [`Context`].
pub ghost struct ContextView {
    pub stacks: Option<StacksManagerView>,
    pub recent_files: Option<RecentFilesView>,
}

impl View for Context {
    type V = ContextView;

    open spec fn view(&self) -> ContextView {
        ContextView {
            stacks: match self.stacks {
                Some(manager) => Some(manager@),
                None => None,
            },
            recent_files: match self.recent_files {
                Some(recent) => Some(recent@),
                None => None,
            },
        }
    }
}

impl ContextView {
    /// The collection that calls are routed to: that of the active project.
    pub open spec fn collection(self) -> Option<StacksView> {
        match self.stacks {
            Some(manager) => manager.current(),
            None => None,
        }
    }

    /// The state with `stacks` in the place of the active project's
    /// collection.
    pub open spec fn with_collection(self, stacks: StacksView) -> ContextView {
        ContextView { stacks: Some(self.stacks->0.with_current(stacks)), ..self }
    }

    /// The state after `change` was made to the active project's
    /// collection. Without such a collection nothing changes.
    pub open spec fn change(self, change: spec_fn(StacksView) -> StacksView) -> ContextView {
        match self.collection() {
            Some(stacks) => self.with_collection(change(stacks)),
            None => self,
        }
    }

    /// What a call on the stacks gives back: an error before `setup`, else
    /// what `ask` finds in the active project's collection, or `none` where
    /// the active project has no collection.
    pub open spec fn answer<T>(self, ask: spec_fn(StacksView) -> T, none: T) -> Result<T, Errors> {
        match self.stacks {
            None => Err(Errors::StacksNotInit),
            Some(manager) => Ok(
                match manager.current() {
                    Some(stacks) => ask(stacks),
                    None => none,
                },
            ),
        }
    }
}

/// A result with the plain value of what it holds.
pub open spec fn deep<T: DeepView>(res: Result<T, Errors>) -> Result<T::V, Errors> {
    match res {
        Ok(value) => Ok(value.deep_view()),
        Err(e) => Err(e),
    }
}

/// The test that a local mark belongs to the file at `path`.
pub open spec fn local_at(path: Seq<char>) -> spec_fn(LocalMarkView) -> bool {
    |m: LocalMarkView| m.path == path
}

/// The global marks of the stacks named by `order`, stack after stack, each
/// stack's marks bucket after bucket.
pub open spec fn marks_of_stacks(stacks: Stacks, order: Seq<Seq<char>>) -> Seq<GlobalMarkView>
    decreases order.len(),
{
    if order.len() == 0 {
        Seq::empty()
    } else {
        marks_of_stacks(stacks, order.drop_last()) + buckets_in_order(
            stacks.paths(order.last()),
            stacks@.stacks[order.last()].global_marks,
        )
    }
}

impl Context {
    /// A state before `setup`.
    pub fn new() -> (ctx: Context)
        ensures
            ctx@ == (ContextView { stacks: None, recent_files: None }),
    {
        Context { stacks: None, recent_files: None }
    }
}

/// Sets the state up with the projects that were found, of which `project`
/// is the active one, and with the recent files that were read. Returns
/// `false` where a part of the state is set up already; that part stays as
/// it is.
pub fn setup(
    ctx: &mut Context,
    project: String,
    projects: Vec<(String, Stacks)>,
    recent_files: Vec<String>,
    recent_files_limit: i32,
) -> (done: bool)
    ensures
        done == (old(ctx)@.stacks is None && old(ctx)@.recent_files is None),
        old(ctx)@.stacks is Some ==> final(ctx)@ == old(ctx)@,
        old(ctx)@.stacks is None ==> final(ctx)@.stacks == Some(
            StacksManagerView {
                active: Some(project@),
                projects: stacks::project_views(table::pairs_map(projects@)),
            },
        ),
        old(ctx)@.recent_files is Some ==> final(ctx)@.recent_files == old(ctx)@.recent_files,
        done ==> final(ctx)@.recent_files == Some(
            RecentFilesView {
                files: recent_files.deep_view(),
                limit: recent_files_limit as int,
                enabled: true,
            },
        ),
{
    if ctx.stacks.is_some() {
        return false;
    }
    ctx.stacks = Some(StacksManager::new(project, projects));
    if ctx.recent_files.is_some() {
        return false;
    }
    ctx.recent_files = Some(RecentFiles::new(recent_files, recent_files_limit));
    true
}

/// Adds an empty stack under `name` to the active project and makes it
/// active.
pub fn add_stack(ctx: &mut Context, name: String) -> (res: Result<bool, Errors>)
    ensures
        final(ctx)@ == old(ctx)@.change(|s: StacksView| s.add(name@)),
        res == old(ctx)@.answer(|s: StacksView| !s.has(name@), false),
{
    match &mut ctx.stacks {
        Some(manager) => match manager.get_stacks_mut() {
            Some(stacks) => Ok(stacks.add(name)),
            None => Ok(false),
        },
        None => Err(Errors::StacksNotInit),
    }
}

/// The name of the active stack of the active project.
pub fn get_active_stack(ctx: &Context) -> (res: Result<Option<String>, Errors>)
    ensures
        res is Err <==> ctx@.stacks is None,
        res matches Err(e) ==> e == Errors::StacksNotInit,
        res matches Ok(name) ==> text_of(name) == match ctx@.collection() {
            Some(stacks) => stacks.active,
            None => None,
        },
{
    match &ctx.stacks {
        Some(manager) => match manager.get_stacks() {
            Some(stacks) => Ok(stacks.active_name()),
            None => Ok(None),
        },
        None => Err(Errors::StacksNotInit),
    }
}

/// Takes the stack under `name` out of the active project and returns it.
pub fn remove_stack(ctx: &mut Context, name: String) -> (res: Result<Option<Stack>, Errors>)
    ensures
        final(ctx)@ == old(ctx)@.change(|s: StacksView| s.remove(name@)),
        deep(res) == old(ctx)@.answer(|s: StacksView| s.get(Some(name@)), None),
{
    match &mut ctx.stacks {
        Some(manager) => match manager.get_stacks_mut() {
            Some(stacks) => Ok(stacks.remove(name)),
            None => Ok(None),
        },
        None => Err(Errors::StacksNotInit),
    }
}

/// Whether `name` is the active stack of the active project.
pub fn is_active_stack(ctx: &Context, name: String) -> (res: Result<bool, Errors>)
    ensures
        res == ctx@.answer(|s: StacksView| s.is_active(name@), false),
{
    match &ctx.stacks {
        Some(manager) => match manager.get_stacks() {
            Some(stacks) => Ok(stacks.is_active(name)),
            None => Ok(false),
        },
        None => Err(Errors::StacksNotInit),
    }
}

/// Makes the stack under `name` the active stack of the active project.
pub fn set_active_stack(ctx: &mut Context, name: String) -> (res: Result<bool, Errors>)
    ensures
        final(ctx)@ == old(ctx)@.change(|s: StacksView| s.set_active(name@)),
        res == old(ctx)@.answer(|s: StacksView| s.has(name@), false),
{
    match &mut ctx.stacks {
        Some(manager) => match manager.get_stacks_mut() {
            Some(stacks) => Ok(stacks.set_active(name)),
            None => Ok(false),
        },
        None => Err(Errors::StacksNotInit),
    }
}

/// The stacks of the active project, in the order of the collection.
pub fn list_stacks(ctx: &Context) -> (res: Result<Vec<Stack>, Errors>)
    ensures
        res is Err <==> ctx.stacks is None,
        res matches Err(e) ==> e == Errors::StacksNotInit,
        res matches Ok(list) ==> match ctx.stacks->0.stacks() {
            Some(stacks) => list.len() == stacks.order().len() && stacks.order().no_duplicates()
                && (forall|name: Seq<char>| #[trigger]
                stacks.order().contains(name) <==> stacks@.has(name)) && forall|i: int|
                0 <= i < list.len() ==> (#[trigger] list[i])@ == stacks@.stacks[stacks.order()[i]]
                    && list[i].paths() == stacks.paths(stacks.order()[i]),
            None => list.len() == 0,
        },
{
    match &ctx.stacks {
        Some(manager) => match manager.get_stacks() {
            Some(stacks) => Ok(stacks.list()),
            None => Ok(Vec::new()),
        },
        None => Err(Errors::StacksNotInit),
    }
}

/// Moves the stack under `old_name` of the active project to `new_name`.
pub fn rename_stack(ctx: &mut Context, old_name: String, new_name: String) -> (res: Result<
    bool,
    Errors,
>)
    ensures
        final(ctx)@ == old(ctx)@.change(|s: StacksView| s.rename(old_name@, new_name@)),
        res == old(ctx)@.answer(|s: StacksView| s.has(old_name@) && !s.has(new_name@), false),
{
    match &mut ctx.stacks {
        Some(manager) => match manager.get_stacks_mut() {
            Some(stacks) => Ok(stacks.rename(old_name, new_name)),
            None => Ok(false),
        },
        None => Err(Errors::StacksNotInit),
    }
}

/// The stack under `name` of the active project, or its active stack where
/// no name is given.
pub fn get_stack(ctx: &Context, name: Option<String>) -> (res: Result<Option<Stack>, Errors>)
    ensures
        deep(res) == ctx@.answer(|s: StacksView| s.get(text_of(name)), None),
{
    match &ctx.stacks {
        Some(manager) => match manager.get_stacks() {
            Some(stacks) => Ok(stacks.get(name)),
            None => Ok(None),
        },
        None => Err(Errors::StacksNotInit),
    }
}

/// Pins `path` under `label` in the active stack.
pub fn pin_buffer(ctx: &mut Context, path: String, label: String) -> (res: Result<bool, Errors>)
    ensures
        final(ctx)@ == old(ctx)@.change(|s: StacksView| s.pin_buffer(path@, label@)),
        res == old(ctx)@.answer(|s: StacksView| s.current() is Some, false),
{
    match &mut ctx.stacks {
        Some(manager) => match manager.get_stacks_mut() {
            Some(stacks) => Ok(stacks.pin_buffer(path, label)),
            None => Ok(false),
        },
        None => Err(Errors::StacksNotInit),
    }
}

/// Unpins `path` in the active stack.
pub fn unpin_buffer(ctx: &mut Context, path: String) -> (res: Result<bool, Errors>)
    ensures
        final(ctx)@ == old(ctx)@.change(|s: StacksView| s.unpin_buffer(path@)),
        res == old(ctx)@.answer(
            |s: StacksView| s.current() matches Some(stack) && stack.has_pinned(path@),
            false,
        ),
{
    match &mut ctx.stacks {
        Some(manager) => match manager.get_stacks_mut() {
            Some(stacks) => Ok(stacks.unpin_buffer(path)),
            None => Ok(false),
        },
        None => Err(Errors::StacksNotInit),
    }
}

/// The pinned buffers of the active stack.
pub fn list_pinned_buffers(ctx: &Context) -> (res: Result<Vec<PinnedBuffer>, Errors>)
    ensures
        deep(res) == ctx@.answer(|s: StacksView| s.pinned_buffers(), Seq::empty()),
{
    match &ctx.stacks {
        Some(manager) => match manager.get_stacks() {
            Some(stacks) => Ok(stacks.list_pinned_buffers()),
            None => {
                let none: Vec<PinnedBuffer> = Vec::new();
                assert(none.deep_view() =~= Seq::empty());
                Ok(none)
            },
        },
        None => Err(Errors::StacksNotInit),
    }
}

/// The buffer that the active stack has pinned for `path`.
pub fn get_pinned_buffer(ctx: &Context, path: String) -> (res: Result<Option<PinnedBuffer>, Errors>)
    ensures
        deep(res) == ctx@.answer(|s: StacksView| s.pinned_buffer(path@), None),
{
    match &ctx.stacks {
        Some(manager) => match manager.get_stacks() {
            Some(stacks) => Ok(stacks.get_pinned_buffer(path)),
            None => Ok(None),
        },
        None => Err(Errors::StacksNotInit),
    }
}

/// Puts `file_path` at the front of the recent files. Returns the text to
/// store, or `None` where the list is disabled.
pub fn add_recent_file(ctx: &mut Context, file_path: String) -> (res: Result<Option<String>, Errors>)
    ensures
        match old(ctx)@.recent_files {
            Some(recent) => final(ctx)@ == (ContextView {
                recent_files: Some(recent.add(file_path@)),
                ..old(ctx)@
            }) && res is Ok && text_of(res->Ok_0) == if recent.enabled {
                Some(crate::buffers::joined(recent.add(file_path@).files))
            } else {
                None
            },
            None => final(ctx)@ == old(ctx)@ && res == Err::<Option<String>, Errors>(
                Errors::RecentFilesNotInit,
            ),
        },
{
    match &mut ctx.recent_files {
        Some(recent) => Ok(recent.add(file_path)),
        None => Err(Errors::RecentFilesNotInit),
    }
}

/// Takes `file_path` off the recent files. Returns the text to store, or
/// `None` where the list is disabled.
pub fn remove_recent_file(ctx: &mut Context, file_path: String) -> (res: Result<
    Option<String>,
    Errors,
>)
    ensures
        match old(ctx)@.recent_files {
            Some(recent) => final(ctx)@ == (ContextView {
                recent_files: Some(recent.remove(file_path@)),
                ..old(ctx)@
            }) && res is Ok && text_of(res->Ok_0) == if recent.enabled {
                Some(crate::buffers::joined(recent.remove(file_path@).files))
            } else {
                None
            },
            None => final(ctx)@ == old(ctx)@ && res == Err::<Option<String>, Errors>(
                Errors::RecentFilesNotInit,
            ),
        },
{
    match &mut ctx.recent_files {
        Some(recent) => Ok(recent.remove(file_path)),
        None => Err(Errors::RecentFilesNotInit),
    }
}

/// The recent files, newest first.
pub fn list_recent_files(ctx: &Context) -> (res: Result<Vec<String>, Errors>)
    ensures
        deep(res) == match ctx@.recent_files {
            Some(recent) => Ok(recent.files),
            None => Err(Errors::RecentFilesNotInit),
        },
{
    match &ctx.recent_files {
        Some(recent) => Ok(recent.list()),
        None => Err(Errors::RecentFilesNotInit),
    }
}

/// Switches the tracking of recent files on or off.
pub fn enable_recent_files(ctx: &mut Context, enable: bool) -> (res: Result<bool, Errors>)
    ensures
        match old(ctx)@.recent_files {
            Some(recent) => final(ctx)@ == (ContextView {
                recent_files: Some(RecentFilesView { enabled: enable, ..recent }),
                ..old(ctx)@
            }) && res == Ok::<bool, Errors>(true),
            None => final(ctx)@ == old(ctx)@ && res == Err::<bool, Errors>(Errors::RecentFilesNotInit),
        },
{
    match &mut ctx.recent_files {
        Some(recent) => {
            recent.set_enabled(enable);
            Ok(true)
        },
        None => Err(Errors::RecentFilesNotInit),
    }
}

/// Sets a global mark in the active stack.
pub fn add_global_mark(ctx: &mut Context, path: String, desc: String, line: String, lineno: i32) -> (res:
    Result<bool, Errors>)
    ensures
        final(ctx)@ == old(ctx)@.change(
            |s: StacksView| s.add_global_mark(path@, desc@, line@, lineno as int),
        ),
        res == old(ctx)@.answer(|s: StacksView| s.current() is Some, false),
{
    match &mut ctx.stacks {
        Some(manager) => match manager.get_stacks_mut() {
            Some(stacks) => Ok(stacks.add_global_mark(path, desc, line, lineno)),
            None => Ok(false),
        },
        None => Err(Errors::StacksNotInit),
    }
}

/// Takes the global marks at `path` and `lineno` out of the active stack.
pub fn remove_global_mark(ctx: &mut Context, path: String, lineno: i32) -> (res: Result<bool, Errors>)
    ensures
        final(ctx)@ == old(ctx)@.change(|s: StacksView| s.remove_global_mark(path@, lineno as int)),
        res == old(ctx)@.answer(
            |s: StacksView|
                s.current() matches Some(stack) && stack.has_global_mark(path@, lineno as int),
            false,
        ),
{
    match &mut ctx.stacks {
        Some(manager) => match manager.get_stacks_mut() {
            Some(stacks) => Ok(stacks.remove_global_mark(path, lineno)),
            None => Ok(false),
        },
        None => Err(Errors::StacksNotInit),
    }
}

/// The global marks that the active stack keeps for `path`, or all its
/// global marks where no path is given, in the order of their
/// descriptions.
pub fn list_global_marks(ctx: &Context, path: Option<String>) -> (res: Result<Vec<GlobalMark>, Errors>)
    ensures
        res is Err <==> ctx.stacks is None,
        res matches Err(e) ==> e == Errors::StacksNotInit,
        res matches Ok(marks) ==> marks.deep_view() == match ctx.stacks->0.stacks() {
            Some(stacks) => match stacks@.current() {
                Some(stack) => sorted_by_desc(
                    match path {
                        Some(p) => stack.bucket(p@),
                        None => buckets_in_order(
                            stacks.paths(stacks@.active->0),
                            stack.global_marks,
                        ),
                    },
                ),
                None => Seq::empty(),
            },
            None => Seq::empty(),
        },
{
    match &ctx.stacks {
        Some(manager) => match manager.get_stacks() {
            Some(stacks) => Ok(sort_by_desc(stacks.list_global_marks(path))),
            None => {
                let none: Vec<GlobalMark> = Vec::new();
                assert(none.deep_view() =~= Seq::empty());
                Ok(none)
            },
        },
        None => Err(Errors::StacksNotInit),
    }
}

/// The global marks of all stacks of the active project, stack after
/// stack. The path is not looked at.
pub fn list_all_global_marks(ctx: &Context, path: Option<String>) -> (res: Result<
    Vec<GlobalMark>,
    Errors,
>)
    ensures
        res is Err <==> ctx.stacks is None,
        res matches Err(e) ==> e == Errors::StacksNotInit,
        res matches Ok(marks) ==> marks.deep_view() == match ctx.stacks->0.stacks() {
            Some(stacks) => marks_of_stacks(stacks, stacks.order()),
            None => Seq::empty(),
        },
{
    match &ctx.stacks {
        Some(manager) => match manager.get_stacks() {
            Some(stacks) => {
                let list = stacks.list();
                let mut marks: Vec<GlobalMark> = Vec::new();
                let ghost order = stacks.order();
                assert(marks.deep_view() =~= Seq::empty());
                assert(order.take(0) =~= Seq::<Seq<char>>::empty());
                let mut i: usize = 0;
                while i < list.len()
                    invariant
                        i <= list.len(),
                        order == stacks.order(),
                        list.len() == order.len(),
                        forall|j: int|
                            0 <= j < list.len() ==> (#[trigger] list[j])@
                                == stacks@.stacks[order[j]] && list[j].paths() == stacks.paths(
                                order[j],
                            ),
                        marks.deep_view() == marks_of_stacks(*stacks, order.take(i as int)),
                    decreases list.len() - i,
                {
                    let ghost before = marks.deep_view();
                    let mut part = list[i].list_global_marks(None);
                    let ghost added = part.deep_view();
                    marks.append(&mut part);
                    proof {
                        assert(order.take(i + 1).drop_last() =~= order.take(i as int));
                        assert(marks.deep_view() =~= before + added);
                    }
                    i += 1;
                }
                assert(order.take(list.len() as int) =~= order);
                Ok(marks)
            },
            None => {
                let none: Vec<GlobalMark> = Vec::new();
                assert(none.deep_view() =~= Seq::empty());
                Ok(none)
            },
        },
        None => Err(Errors::StacksNotInit),
    }
}

/// Gives the global marks at `path` and `lineno` of the active stack the
/// new line number and the new description, as far as they are given.
pub fn update_global_mark(
    ctx: &mut Context,
    path: String,
    lineno: i32,
    new_lineno: Option<i32>,
    new_desc: Option<String>,
) -> (res: Result<bool, Errors>)
    ensures
        final(ctx)@ == old(ctx)@.change(
            |s: StacksView|
                s.update_global_mark(
                    path@,
                    lineno as int,
                    number_of(new_lineno),
                    text_of(new_desc),
                ),
        ),
        res == old(ctx)@.answer(
            |s: StacksView|
                (new_lineno is Some || new_desc is Some) && (s.current() matches Some(stack)
                    && stack.has_global_mark(path@, lineno as int)),
            false,
        ),
{
    match &mut ctx.stacks {
        Some(manager) => match manager.get_stacks_mut() {
            Some(stacks) => Ok(stacks.update_global_mark(path, lineno, new_lineno, new_desc)),
            None => Ok(false),
        },
        None => Err(Errors::StacksNotInit),
    }
}

/// Sets a local mark in the active stack.
pub fn add_local_mark(ctx: &mut Context, path: String, lineno: i32, line: String) -> (res: Result<
    bool,
    Errors,
>)
    ensures
        final(ctx)@ == old(ctx)@.change(|s: StacksView| s.add_local_mark(path@, line@, lineno as int)),
        res == old(ctx)@.answer(|s: StacksView| s.current() is Some, false),
{
    match &mut ctx.stacks {
        Some(manager) => match manager.get_stacks_mut() {
            Some(stacks) => Ok(stacks.add_local_mark(path, line, lineno)),
            None => Ok(false),
        },
        None => Err(Errors::StacksNotInit),
    }
}

/// Takes the local marks at `path` and `lineno` out of the active stack.
pub fn remove_local_mark(ctx: &mut Context, path: String, lineno: i32) -> (res: Result<bool, Errors>)
    ensures
        final(ctx)@ == old(ctx)@.change(|s: StacksView| s.remove_local_mark(path@, lineno as int)),
        res == old(ctx)@.answer(
            |s: StacksView|
                s.current() matches Some(stack) && stack.has_local_mark(path@, lineno as int),
            false,
        ),
{
    match &mut ctx.stacks {
        Some(manager) => match manager.get_stacks_mut() {
            Some(stacks) => Ok(stacks.remove_local_mark(path, lineno)),
            None => Ok(false),
        },
        None => Err(Errors::StacksNotInit),
    }
}

/// The local marks of `marks` that belong to the file at `path`.
fn locals_at(marks: Vec<LocalMark>, path: &String) -> (kept: Vec<LocalMark>)
    ensures
        kept.deep_view() == marks.deep_view().filter(local_at(path@)),
{
    let ghost all = marks.deep_view();
    let ghost keep = local_at(path@);
    let mut kept: Vec<LocalMark> = Vec::new();
    assert(all.take(0) =~= Seq::<LocalMarkView>::empty());
    assert(kept.deep_view() =~= Seq::<LocalMarkView>::empty());
    proof {
        reveal(Seq::filter);
    }
    for mark in it: marks
        invariant
            all == marks.deep_view(),
            it.seq() == marks@,
            keep == local_at(path@),
            kept.deep_view() == all.take(it.index() as int).filter(keep),
    {
        let ghost i = it.index() as int;
        let ghost before = kept.deep_view();
        proof {
            assert(all.take(i + 1) =~= all.take(i).push(all[i]));
            all.take(i).lemma_filter_push(all[i], keep);
        }
        if mark.path == *path {
            kept.push(mark);
            assert(kept.deep_view() =~= before.push(all[i]));
        }
    }
    assert(all.take(marks.len() as int) =~= all);
    kept
}

/// The local marks of the active stack, or those of them that belong to the
/// file at `path` where a path is given.
pub fn list_local_marks(ctx: &Context, path: Option<String>) -> (res: Result<Vec<LocalMark>, Errors>)
    ensures
        deep(res) == ctx@.answer(
            |s: StacksView|
                match path {
                    Some(p) => s.local_marks().filter(local_at(p@)),
                    None => s.local_marks(),
                },
            Seq::empty(),
        ),
{
    match &ctx.stacks {
        Some(manager) => match manager.get_stacks() {
            Some(stacks) => match path {
                Some(p) => Ok(locals_at(stacks.list_local_marks(), &p)),
                None => Ok(stacks.list_local_marks()),
            },
            None => {
                let none: Vec<LocalMark> = Vec::new();
                assert(none.deep_view() =~= Seq::empty());
                Ok(none)
            },
        },
        None => Err(Errors::StacksNotInit),
    }
}

/// Moves the local marks at `path` and `lineno` of the active stack to
/// `new_lineno`.
pub fn update_local_mark(ctx: &mut Context, path: String, lineno: i32, new_lineno: Option<i32>) -> (res:
    Result<bool, Errors>)
    ensures
        final(ctx)@ == old(ctx)@.change(
            |s: StacksView| s.update_local_mark(path@, lineno as int, number_of(new_lineno)),
        ),
        res == old(ctx)@.answer(
            |s: StacksView|
                new_lineno is Some && (s.current() matches Some(stack) && stack.has_local_mark(
                    path@,
                    lineno as int,
                )),
            false,
        ),
{
    match &mut ctx.stacks {
        Some(manager) => match manager.get_stacks_mut() {
            Some(stacks) => Ok(stacks.update_local_mark(path, lineno, new_lineno)),
            None => Ok(false),
        },
        None => Err(Errors::StacksNotInit),
    }
}

} // verus!
