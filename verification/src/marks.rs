use vstd::prelude::*;

verus! {

/// A line-level annotation that belongs to one stack and one file. Within a
/// stack a local mark is identified by its path and line number.
#[derive(Debug)]
pub struct LocalMark {
    pub path: String,
    /// The text of the line when the mark was set.
    pub line: String,
    pub lineno: i32,
}

/// The mathematical value of a [`LocalMark`].
pub ghost struct LocalMarkView {
    pub path: Seq<char>,
    pub line: Seq<char>,
    pub lineno: int,
}

impl View for LocalMark {
    type V = LocalMarkView;

    open spec fn view(&self) -> LocalMarkView {
        LocalMarkView { path: self.path@, line: self.line@, lineno: self.lineno as int }
    }
}

impl DeepView for LocalMark {
    type V = LocalMarkView;

    open spec fn deep_view(&self) -> LocalMarkView {
        self@
    }
}

impl Clone for LocalMark {
    fn clone(&self) -> (res: Self)
        ensures
            res@ == self@,
    {
        LocalMark { path: self.path.clone(), line: self.line.clone(), lineno: self.lineno }
    }
}

/// A described line annotation that can be referred to across files. A stack
/// keeps its global marks in one bucket per path; within a bucket a mark is
/// identified by its line number.
#[derive(Debug)]
pub struct GlobalMark {
    /// The name the owning stack had when the mark was set.
    pub stack: String,
    pub path: String,
    /// The text of the line when the mark was set.
    pub line: String,
    pub lineno: i32,
    pub desc: String,
}

/// The mathematical value of a [`GlobalMark`].
pub ghost struct GlobalMarkView {
    pub stack: Seq<char>,
    pub path: Seq<char>,
    pub line: Seq<char>,
    pub lineno: int,
    pub desc: Seq<char>,
}

impl View for GlobalMark {
    type V = GlobalMarkView;

    open spec fn view(&self) -> GlobalMarkView {
        GlobalMarkView {
            stack: self.stack@,
            path: self.path@,
            line: self.line@,
            lineno: self.lineno as int,
            desc: self.desc@,
        }
    }
}

impl DeepView for GlobalMark {
    type V = GlobalMarkView;

    open spec fn deep_view(&self) -> GlobalMarkView {
        self@
    }
}

impl Clone for GlobalMark {
    fn clone(&self) -> (res: Self)
        ensures
            res@ == self@,
    {
        GlobalMark {
            stack: self.stack.clone(),
            path: self.path.clone(),
            line: self.line.clone(),
            lineno: self.lineno,
            desc: self.desc.clone(),
        }
    }
}

} // verus!
