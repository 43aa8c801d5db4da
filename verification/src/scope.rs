use vstd::prelude::*;

use crate::cgroup::{cgroup_path_in, cgroup_path_spec, in_app_slice, is_app_scope};
use crate::text::{chars_of, parse_u32, parse_u32_spec, split_words, views, words_of};

verus! {

// ---------------------------------------------------------------------------
// Finding the app.slice unit of a focused process: the process itself, or
// one of its children, depth first, down to a depth limit.
// ---------------------------------------------------------------------------

/// The numbers among `ws`, in order, as `str::parse::<u32>` reads them; the
/// others are skipped.
pub open spec fn parsed_ids(ws: Seq<Seq<char>>) -> Seq<u32>
    decreases ws.len(),
{
    if ws.len() == 0 {
        seq![]
    } else {
        let r = parsed_ids(ws.drop_last());
        match parse_u32_spec(ws.last()) {
            Some(n) => r.push(n),
            None => r,
        }
    }
}

/// The numbers in a list of names, in order, the others skipped.
pub fn ids_of(names: &Vec<Vec<char>>) -> (ids: Vec<u32>)
    ensures
        ids@ == parsed_ids(views(names@)),
{
    let ghost ws = views(names@);
    let mut ids: Vec<u32> = Vec::new();
    let mut i: usize = 0;
    while i < names.len()
        invariant
            ws == views(names@),
            i <= names.len(),
            ids@ == parsed_ids(ws.take(i as int)),
        decreases names.len() - i,
    {
        proof {
            assert(ws.take(i + 1).drop_last() =~= ws.take(i as int));
            assert(names@[i as int]@ == ws[i as int]);
        }
        match parse_u32(names[i].as_slice()) {
            Some(n) => ids.push(n),
            None => {},
        }
        i = i + 1;
    }
    proof {
        assert(ws.take(names.len() as int) =~= ws);
    }
    ids
}

/// The app.slice cgroup that a `/proc/<pid>/cgroup` body names, if it names
/// one (None also when the body could not be read).
pub open spec fn found_scope(content: Option<Seq<char>>) -> Option<Seq<char>> {
    match content {
        Some(t) => match cgroup_path_spec(t) {
            Some(p) => if in_app_slice(p) {
                Some(p)
            } else {
                None
            },
            None => None,
        },
        None => None,
    }
}

/// A process being searched: its pid, its depth below the focused process,
/// the tasks whose children are still to be read, and the children of the
/// last task read that are still to be searched.
pub struct FrameView {
    pub pid: u32,
    pub depth: nat,
    pub tasks: Seq<u32>,
    pub kids: Seq<u32>,
}

/// What the app does next for a search.
pub enum SearchPlan {
    ReadCgroup(u32),
    ListTasks(u32),
    ReadChildren(u32, u32),
    Found(Seq<char>),
    NotFound,
}

/// A process to search, at `depth`, with nothing read yet.
pub open spec fn fresh_frame(pid: u32, depth: nat) -> FrameView {
    FrameView { pid, depth, tasks: seq![], kids: seq![] }
}

/// Going on with the search from the innermost process: its next child is
/// searched, else its next task's children are read, else it is done and
/// the search goes on with its parent; with none left, nothing was found.
pub open spec fn resume(fs: Seq<FrameView>) -> (Seq<FrameView>, SearchPlan)
    decreases fs.len(),
{
    if fs.len() == 0 {
        (fs, SearchPlan::NotFound)
    } else {
        let t = fs.last();
        if t.kids.len() > 0 {
            let rest = FrameView { kids: t.kids.drop_first(), ..t };
            (
                fs.drop_last().push(rest).push(fresh_frame(t.kids[0], t.depth + 1)),
                SearchPlan::ReadCgroup(t.kids[0]),
            )
        } else if t.tasks.len() > 0 {
            let rest = FrameView { tasks: t.tasks.drop_first(), ..t };
            (fs.drop_last().push(rest), SearchPlan::ReadChildren(t.pid, t.tasks[0]))
        } else {
            resume(fs.drop_last())
        }
    }
}

/// What the app reports back to a search.
pub enum SearchEvent {
    /// The innermost process's `/proc/<pid>/cgroup` body (None if unreadable).
    Cgroup(Option<String>),
    /// The names in its `/proc/<pid>/task` directory (None if unreadable).
    Tasks(Option<Vec<String>>),
    /// The body of the `children` file of its task last asked for (None if unreadable).
    Children(Option<String>),
}

/// A search event as text.
pub enum SearchEventView {
    Cgroup(Option<Seq<char>>),
    Tasks(Option<Seq<Seq<char>>>),
    Children(Option<Seq<char>>),
}

/// The texts of a list of strings.
pub open spec fn strings_view(v: Seq<String>) -> Seq<Seq<char>> {
    Seq::new(v.len(), |i: int| v[i]@)
}

impl View for SearchEvent {
    type V = SearchEventView;

    open spec fn view(&self) -> SearchEventView {
        match self {
            SearchEvent::Cgroup(c) => SearchEventView::Cgroup(
                match c {
                    Some(t) => Some(t@),
                    None => None,
                },
            ),
            SearchEvent::Tasks(ns) => SearchEventView::Tasks(
                match ns {
                    Some(v) => Some(strings_view(v@)),
                    None => None,
                },
            ),
            SearchEvent::Children(c) => SearchEventView::Children(
                match c {
                    Some(t) => Some(t@),
                    None => None,
                },
            ),
        }
    }
}

/// The next step of a search, limited to `max_depth` below the focused
/// process, after `e` about its innermost process: an app.slice cgroup ends
/// it; a process at the depth limit is not looked into; an unreadable task
/// directory ends that process; the tasks and children read are searched in
/// the order read (none are taken for a process at the limit).
pub open spec fn search_step(fs: Seq<FrameView>, max_depth: nat, e: SearchEventView) -> (
    Seq<FrameView>,
    SearchPlan,
) {
    if fs.len() == 0 {
        (fs, SearchPlan::NotFound)
    } else {
        let t = fs.last();
        match e {
            SearchEventView::Cgroup(c) => match found_scope(c) {
                Some(p) => (fs, SearchPlan::Found(p)),
                None => if t.depth >= max_depth {
                    resume(fs.drop_last())
                } else {
                    (fs, SearchPlan::ListTasks(t.pid))
                },
            },
            SearchEventView::Tasks(names) => match names {
                Some(ns) => if t.depth < max_depth {
                    resume(fs.drop_last().push(FrameView { tasks: parsed_ids(ns), ..t }))
                } else {
                    resume(fs.drop_last())
                },
                None => resume(fs.drop_last()),
            },
            SearchEventView::Children(text) => match text {
                Some(x) => if t.depth < max_depth {
                    resume(fs.drop_last().push(FrameView { kids: parsed_ids(words_of(x)), ..t }))
                } else {
                    resume(fs)
                },
                None => resume(fs),
            },
        }
    }
}

/// What the app does next for a search.
pub enum SearchAction {
    /// Read `/proc/<pid>/cgroup`.
    ReadCgroup(u32),
    /// List `/proc/<pid>/task`.
    ListTasks(u32),
    /// Read `/proc/<pid>/task/<tid>/children`.
    ReadChildren(u32, u32),
    /// The search is over: this app.slice cgroup was found.
    Found(String),
    /// The search is over with nothing found.
    NotFound,
}

impl View for SearchAction {
    type V = SearchPlan;

    open spec fn view(&self) -> SearchPlan {
        match self {
            SearchAction::ReadCgroup(p) => SearchPlan::ReadCgroup(*p),
            SearchAction::ListTasks(p) => SearchPlan::ListTasks(*p),
            SearchAction::ReadChildren(p, t) => SearchPlan::ReadChildren(*p, *t),
            SearchAction::Found(s) => SearchPlan::Found(s@),
            SearchAction::NotFound => SearchPlan::NotFound,
        }
    }
}

struct Frame {
    pid: u32,
    depth: usize,
    tasks: Vec<u32>,
    next_task: usize,
    kids: Vec<u32>,
    next_kid: usize,
}

spec fn frame_view(f: Frame) -> FrameView {
    FrameView {
        pid: f.pid,
        depth: f.depth as nat,
        tasks: f.tasks@.skip(f.next_task as int),
        kids: f.kids@.skip(f.next_kid as int),
    }
}

spec fn frames_view(v: Seq<Frame>) -> Seq<FrameView> {
    Seq::new(v.len(), |i: int| frame_view(v[i]))
}

/// The processes being searched are nested, the k-th at depth k, and only
/// those above the depth limit have tasks or children left.
pub open spec fn frames_ok(fs: Seq<FrameView>, max_depth: nat) -> bool {
    forall|k: int|
        0 <= k < fs.len() ==> (#[trigger] fs[k]).depth == k && ((fs[k].tasks.len() > 0
            || fs[k].kids.len() > 0) ==> fs[k].depth < max_depth)
}

spec fn frames_exec_ok(v: Seq<Frame>) -> bool {
    forall|k: int|
        0 <= k < v.len() ==> (#[trigger] v[k]).next_task <= v[k].tasks@.len() && v[k].next_kid
            <= v[k].kids@.len()
}

/// A search for the app.slice unit of a process, as a state the app steps
/// through: it asks for one file at a time and reports what it read.
pub struct ScopeSearch {
    max_depth: usize,
    frames: Vec<Frame>,
}

/// A search as its depth limit and the processes being searched, the
/// focused one first.
pub struct ScopeSearchView {
    pub max_depth: nat,
    pub frames: Seq<FrameView>,
}

impl View for ScopeSearch {
    type V = ScopeSearchView;

    closed spec fn view(&self) -> ScopeSearchView {
        ScopeSearchView { max_depth: self.max_depth as nat, frames: frames_view(self.frames@) }
    }
}

impl ScopeSearch {
    #[verifier::type_invariant]
    closed spec fn well_formed(self) -> bool {
        &&& frames_exec_ok(self.frames@)
        &&& frames_ok(frames_view(self.frames@), self.max_depth as nat)
    }

    /// A search for the app.slice unit of `pid` or of its children, down to
    /// `max_depth` below it; it starts by reading the cgroup of `pid`.
    pub fn start(pid: u32, max_depth: usize) -> (r: (Self, SearchAction))
        ensures
            r.0@.max_depth == max_depth,
            r.0@.frames == seq![fresh_frame(pid, 0)],
            r.1@ == SearchPlan::ReadCgroup(pid),
    {
        let mut frames: Vec<Frame> = Vec::new();
        frames.push(new_frame(pid, 0));
        proof {
            assert(frames_view(frames@) =~= seq![fresh_frame(pid, 0)]);
        }
        (ScopeSearch { max_depth, frames }, SearchAction::ReadCgroup(pid))
    }

    /// One step of the search after `event` about its innermost process: the
    /// next file for the app to read, or the end of the search. The processes
    /// searched stay nested, each one deeper, none looked into at the limit.
    pub fn step(&mut self, event: SearchEvent) -> (action: SearchAction)
        ensures
            (final(self)@.frames, action@) == search_step(
                old(self)@.frames,
                old(self)@.max_depth,
                event@,
            ),
            final(self)@.max_depth == old(self)@.max_depth,
            frames_ok(final(self)@.frames, final(self)@.max_depth),
    {
        proof {
            use_type_invariant(&*self);
        }
        let max_depth = self.max_depth;
        let mut frames: Vec<Frame> = Vec::new();
        std::mem::swap(&mut frames, &mut self.frames);
        let ghost fs = frames_view(frames@);
        let n = frames.len();
        if n == 0 {
            std::mem::swap(&mut frames, &mut self.frames);
            return SearchAction::NotFound;
        }
        let ghost t = fs.last();
        proof {
            assert(frame_view(frames@[n - 1]) == t);
        }
        let action = match event {
            SearchEvent::Cgroup(content) => {
                let found = match &content {
                    Some(text) => match cgroup_path_in(text.as_str()) {
                        Some(p) => if is_app_scope(p.as_str()) {
                            Some(p)
                        } else {
                            None
                        },
                        None => None,
                    },
                    None => None,
                };
                match found {
                    Some(p) => SearchAction::Found(p),
                    None => {
                        if frames[n - 1].depth >= max_depth {
                            let _ = frames.pop();
                            proof {
                                assert(frames_view(frames@) =~= fs.drop_last());
                            }
                            resume_frames(&mut frames, max_depth)
                        } else {
                            SearchAction::ListTasks(frames[n - 1].pid)
                        }
                    },
                }
            },
            SearchEvent::Tasks(names) => {
                let mut top = frames.pop().unwrap();
                proof {
                    assert(frames_view(frames@) =~= fs.drop_last());
                }
                match names {
                    Some(ns) => {
                        if top.depth < max_depth {
                            let listed = names_chars(&ns);
                            top.tasks = ids_of(&listed);
                            top.next_task = 0;
                            proof {
                                assert(top.tasks@.skip(0) =~= top.tasks@);
                                assert(frame_view(top) == FrameView { tasks: parsed_ids(strings_view(ns@)), ..t });
                            }
                            frames.push(top);
                            proof {
                                assert(frames_view(frames@) =~= fs.drop_last().push(
                                    FrameView { tasks: parsed_ids(strings_view(ns@)), ..t },
                                ));
                            }
                        }
                    },
                    None => {},
                }
                resume_frames(&mut frames, max_depth)
            },
            SearchEvent::Children(text) => {
                match text {
                    Some(x) => {
                        if frames[n - 1].depth < max_depth {
                            let mut top = frames.pop().unwrap();
                            let cs = chars_of(x.as_str());
                            let words = split_words(cs.as_slice());
                            top.kids = ids_of(&words);
                            top.next_kid = 0;
                            proof {
                                assert(top.kids@.skip(0) =~= top.kids@);
                                assert(frame_view(top) == FrameView { kids: parsed_ids(words_of(x@)), ..t });
                            }
                            frames.push(top);
                            proof {
                                assert(frames_view(frames@) =~= fs.drop_last().push(
                                    FrameView { kids: parsed_ids(words_of(x@)), ..t },
                                ));
                            }
                        }
                    },
                    None => {},
                }
                resume_frames(&mut frames, max_depth)
            },
        };
        std::mem::swap(&mut frames, &mut self.frames);
        action
    }

}

fn new_frame(pid: u32, depth: usize) -> (f: Frame)
    ensures
        frame_view(f) == fresh_frame(pid, depth as nat),
        f.next_task <= f.tasks@.len(),
        f.next_kid <= f.kids@.len(),
{
    let f = Frame { pid, depth, tasks: Vec::new(), next_task: 0, kids: Vec::new(), next_kid: 0 };
    proof {
        assert(f.tasks@.skip(0) =~= Seq::<u32>::empty());
        assert(f.kids@.skip(0) =~= Seq::<u32>::empty());
    }
    f
}

/// Goes on with the search from the innermost process (see `resume`).
fn resume_frames(frames: &mut Vec<Frame>, max_depth: usize) -> (action: SearchAction)
    requires
        frames_exec_ok(old(frames)@),
        frames_ok(frames_view(old(frames)@), max_depth as nat),
    ensures
        frames_exec_ok(final(frames)@),
        frames_ok(frames_view(final(frames)@), max_depth as nat),
        (frames_view(final(frames)@), action@) == resume(frames_view(old(frames)@)),
{
    loop
        invariant
            frames_exec_ok(frames@),
            frames_ok(frames_view(frames@), max_depth as nat),
            resume(frames_view(frames@)) == resume(frames_view(old(frames)@)),
        decreases frames@.len(),
    {
        let ghost fs = frames_view(frames@);
        match frames.pop() {
            None => {
                proof {
                    assert(fs.len() == 0);
                }
                return SearchAction::NotFound;
            },
            Some(mut top) => {
                proof {
                    assert(fs.last() == frame_view(top));
                    assert(frames_view(frames@) =~= fs.drop_last());
                }
                let ghost t = frame_view(top);
                if top.next_kid < top.kids.len() {
                    let kid = top.kids[top.next_kid];
                    top.next_kid = top.next_kid + 1;
                    let depth = top.depth;
                    proof {
                        assert(t.kids[0] == kid);
                        assert(frame_view(top).kids =~= t.kids.drop_first());
                        assert(frame_view(top) == FrameView { kids: t.kids.drop_first(), ..t });
                        assert(t.depth < max_depth);
                        assert(t.depth == fs.len() - 1);
                    }
                    frames.push(top);
                    frames.push(new_frame(kid, depth + 1));
                    proof {
                        assert(frames_view(frames@) =~= fs.drop_last().push(
                            FrameView { kids: t.kids.drop_first(), ..t },
                        ).push(fresh_frame(kid, (depth + 1) as nat)));
                    }
                    return SearchAction::ReadCgroup(kid);
                } else if top.next_task < top.tasks.len() {
                    let tid = top.tasks[top.next_task];
                    top.next_task = top.next_task + 1;
                    let pid = top.pid;
                    proof {
                        assert(t.kids.len() == 0);
                        assert(t.tasks[0] == tid);
                        assert(frame_view(top).tasks =~= t.tasks.drop_first());
                        assert(frame_view(top) == FrameView { tasks: t.tasks.drop_first(), ..t });
                    }
                    frames.push(top);
                    proof {
                        assert(frames_view(frames@) =~= fs.drop_last().push(
                            FrameView { tasks: t.tasks.drop_first(), ..t },
                        ));
                    }
                    return SearchAction::ReadChildren(pid, tid);
                } else {
                    proof {
                        assert(t.kids.len() == 0 && t.tasks.len() == 0);
                    }
                }
            },
        }
    }
}

/// The characters of each name.
fn names_chars(ns: &Vec<String>) -> (v: Vec<Vec<char>>)
    ensures
        views(v@) == strings_view(ns@),
{
    let mut v: Vec<Vec<char>> = Vec::new();
    let mut i: usize = 0;
    while i < ns.len()
        invariant
            i <= ns.len(),
            views(v@) == strings_view(ns@).take(i as int),
        decreases ns.len() - i,
    {
        let ghost before = views(v@);
        let c = chars_of(ns[i].as_str());
        let ghost cv = c@;
        v.push(c);
        proof {
            assert(cv == ns@[i as int]@);
            assert(views(v@) =~= before.push(cv));
            assert(views(v@) =~= strings_view(ns@).take(i + 1));
        }
        i = i + 1;
    }
    proof {
        assert(strings_view(ns@).take(ns.len() as int) =~= strings_view(ns@));
    }
    v
}

// ---------------------------------------------------------------------------
// Laws.
// ---------------------------------------------------------------------------

proof fn lemma_resume(fs: Seq<FrameView>, max_depth: nat)
    requires
        frames_ok(fs, max_depth),
    ensures
        frames_ok(resume(fs).0, max_depth),
        !(resume(fs).1 is Found),
        resume(fs).1 matches SearchPlan::ReadCgroup(pid) ==> resume(fs).0.len() > 0
            && resume(fs).0.last() == fresh_frame(pid, (resume(fs).0.len() - 1) as nat)
            && resume(fs).0.len() - 1 <= max_depth,
    decreases fs.len(),
{
    if fs.len() > 0 {
        let t = fs.last();
        assert(t == fs[fs.len() - 1]);
        if t.kids.len() == 0 && t.tasks.len() == 0 {
            assert forall|k: int| 0 <= k < fs.drop_last().len() implies #[trigger] fs.drop_last()[k]
                == fs[k] by {}
            lemma_resume(fs.drop_last(), max_depth);
        } else {
            let r = resume(fs).0;
            assert forall|k: int| 0 <= k < r.len() implies (#[trigger] r[k]).depth == k && ((
            r[k].tasks.len() > 0 || r[k].kids.len() > 0) ==> r[k].depth < max_depth) by {
                if k < fs.len() - 1 {
                    assert(r[k] == fs[k]);
                }
            }
        }
    }
}

/// A search ends with a cgroup only when that cgroup lies under an
/// app.slice and is the one the process's `/proc/<pid>/cgroup` names; and,
/// with the processes searched nested as `frames_ok` says, it never asks for
/// the cgroup of a process deeper than the limit, asks only for the
/// innermost one's, and keeps them nested.
pub proof fn law_search_stays_within_limit(fs: Seq<FrameView>, max_depth: nat, e: SearchEventView)
    requires
        frames_ok(fs, max_depth),
    ensures
        search_step(fs, max_depth, e).1 matches SearchPlan::Found(p) ==> in_app_slice(p) && (e
            matches SearchEventView::Cgroup(c) && found_scope(c) == Some(p)),
        frames_ok(search_step(fs, max_depth, e).0, max_depth),
        search_step(fs, max_depth, e).1 matches SearchPlan::ReadCgroup(pid) ==> {
            let r = search_step(fs, max_depth, e).0;
            &&& r.len() > 0
            &&& r.last() == fresh_frame(pid, (r.len() - 1) as nat)
            &&& r.len() - 1 <= max_depth
        },
{
    if fs.len() > 0 {
        let t = fs.last();
        assert(t == fs[fs.len() - 1]);
        let d = fs.drop_last();
        assert forall|k: int| 0 <= k < d.len() implies #[trigger] d[k] == fs[k] by {}
        lemma_resume(d, max_depth);
        match e {
            SearchEventView::Cgroup(c) => {},
            SearchEventView::Tasks(names) => {
                match names {
                    Some(ns) => if t.depth < max_depth {
                        let f = d.push(FrameView { tasks: parsed_ids(ns), ..t });
                        assert forall|k: int| 0 <= k < f.len() implies (#[trigger] f[k]).depth == k
                            && ((f[k].tasks.len() > 0 || f[k].kids.len() > 0) ==> f[k].depth
                            < max_depth) by {
                            if k < d.len() {
                                assert(f[k] == fs[k]);
                            }
                        }
                        lemma_resume(f, max_depth);
                    },
                    None => {},
                }
            },
            SearchEventView::Children(text) => {
                lemma_resume(fs, max_depth);
                match text {
                    Some(x) => if t.depth < max_depth {
                        let f = d.push(FrameView { kids: parsed_ids(words_of(x)), ..t });
                        assert forall|k: int| 0 <= k < f.len() implies (#[trigger] f[k]).depth == k
                            && ((f[k].tasks.len() > 0 || f[k].kids.len() > 0) ==> f[k].depth
                            < max_depth) by {
                            if k < d.len() {
                                assert(f[k] == fs[k]);
                            }
                        }
                        lemma_resume(f, max_depth);
                    },
                    None => {},
                }
            },
        }
    }
}

// ---------------------------------------------------------------------------
// A whole search, run against a table of what each /proc file holds.
// ---------------------------------------------------------------------------

/// What the /proc files read by a search hold: each process's cgroup body,
/// the names in its task directory, and each task's children body (None
/// where a file cannot be read).
pub struct ProcTable {
    pub cgroup: spec_fn(u32) -> Option<Seq<char>>,
    pub tasks: spec_fn(u32) -> Option<Seq<Seq<char>>>,
    pub children: spec_fn(u32, u32) -> Option<Seq<char>>,
}

/// The first of two results that is found.
pub open spec fn or_else(a: Option<Seq<char>>, b: Option<Seq<char>>) -> Option<Seq<char>> {
    match a {
        Some(x) => Some(x),
        None => b,
    }
}

/// The children that task `t` of process `p` lists.
pub open spec fn kids_of(t: ProcTable, p: u32, tid: u32) -> Seq<u32> {
    match (t.children)(p, tid) {
        Some(x) => parsed_ids(words_of(x)),
        None => seq![],
    }
}

/// The app.slice cgroup that a depth-first search finds from process `pid`
/// at `depth`: the process's own when it names one; else, above the depth
/// limit, the first found among the children of its tasks, task by task and
/// child by child in the order listed.
pub open spec fn dfs(t: ProcTable, pid: u32, depth: nat, max_depth: nat) -> Option<Seq<char>>
    decreases max_depth - depth, 2nat, 0nat,
{
    match found_scope((t.cgroup)(pid)) {
        Some(p) => Some(p),
        None => if depth >= max_depth {
            None
        } else {
            match (t.tasks)(pid) {
                Some(ns) => dfs_tasks(t, pid, parsed_ids(ns), depth, max_depth),
                None => None,
            }
        },
    }
}

/// The first found among the children of the tasks `tids` of `pid`.
pub open spec fn dfs_tasks(t: ProcTable, pid: u32, tids: Seq<u32>, depth: nat, max_depth: nat) -> Option<
    Seq<char>,
>
    decreases max_depth - depth, 1nat, tids.len(),
{
    if tids.len() == 0 || depth >= max_depth {
        None
    } else {
        or_else(
            dfs_kids(t, kids_of(t, pid, tids[0]), depth + 1, max_depth),
            dfs_tasks(t, pid, tids.drop_first(), depth, max_depth),
        )
    }
}

/// The first found among the processes `kids`, each searched at `depth`.
pub open spec fn dfs_kids(t: ProcTable, kids: Seq<u32>, depth: nat, max_depth: nat) -> Option<
    Seq<char>,
>
    decreases max_depth - depth, 3nat, kids.len(),
{
    if kids.len() == 0 {
        None
    } else {
        or_else(dfs(t, kids[0], depth, max_depth), dfs_kids(t, kids.drop_first(), depth, max_depth))
    }
}

/// What the search finds once it goes on from the processes `fs`: the
/// innermost one's remaining children, then its remaining tasks, then its
/// parent's, and so on.
pub open spec fn dfs_rest(t: ProcTable, fs: Seq<FrameView>, max_depth: nat) -> Option<Seq<char>>
    decreases fs.len(),
{
    if fs.len() == 0 {
        None
    } else {
        let f = fs.last();
        or_else(
            dfs_kids(t, f.kids, f.depth + 1, max_depth),
            or_else(
                dfs_tasks(t, f.pid, f.tasks, f.depth, max_depth),
                dfs_rest(t, fs.drop_last(), max_depth),
            ),
        )
    }
}

/// What the search finds from processes `fs` with `a` the next thing asked for.
pub open spec fn dfs_pending(t: ProcTable, fs: Seq<FrameView>, a: SearchPlan, max_depth: nat) -> Option<
    Seq<char>,
> {
    match a {
        SearchPlan::Found(x) => Some(x),
        SearchPlan::NotFound => None,
        SearchPlan::ReadCgroup(p) => or_else(
            dfs(t, p, fs.last().depth, max_depth),
            dfs_rest(t, fs.drop_last(), max_depth),
        ),
        SearchPlan::ListTasks(p) => or_else(
            match (t.tasks)(p) {
                Some(ns) => dfs_tasks(t, p, parsed_ids(ns), fs.last().depth, max_depth),
                None => None,
            },
            dfs_rest(t, fs.drop_last(), max_depth),
        ),
        SearchPlan::ReadChildren(p, tid) => or_else(
            dfs_kids(t, kids_of(t, p, tid), fs.last().depth + 1, max_depth),
            or_else(
                dfs_tasks(t, p, fs.last().tasks, fs.last().depth, max_depth),
                dfs_rest(t, fs.drop_last(), max_depth),
            ),
        ),
    }
}

/// The thing asked for fits the innermost process.
pub open spec fn pending_fits(fs: Seq<FrameView>, a: SearchPlan, max_depth: nat) -> bool {
    match a {
        SearchPlan::ReadCgroup(p) => fs.len() > 0 && fs.last().pid == p && fs.last().kids.len() == 0
            && fs.last().tasks.len() == 0,
        SearchPlan::ListTasks(p) => fs.len() > 0 && fs.last().pid == p && fs.last().kids.len() == 0
            && fs.last().tasks.len() == 0 && fs.last().depth < max_depth,
        SearchPlan::ReadChildren(p, _) => fs.len() > 0 && fs.last().pid == p && fs.last().kids.len()
            == 0 && fs.last().depth < max_depth,
        _ => true,
    }
}

/// What the table answers to the thing asked for.
pub open spec fn answer(t: ProcTable, a: SearchPlan) -> SearchEventView {
    match a {
        SearchPlan::ReadCgroup(p) => SearchEventView::Cgroup((t.cgroup)(p)),
        SearchPlan::ListTasks(p) => SearchEventView::Tasks((t.tasks)(p)),
        SearchPlan::ReadChildren(p, tid) => SearchEventView::Children((t.children)(p, tid)),
        _ => SearchEventView::Cgroup(None),
    }
}

/// The end of a search run for at most `fuel` steps with every read answered
/// from the table (None if it has not ended by then).
pub open spec fn run(t: ProcTable, fs: Seq<FrameView>, a: SearchPlan, max_depth: nat, fuel: nat) -> Option<
    SearchPlan,
>
    decreases fuel,
{
    match a {
        SearchPlan::Found(_) => Some(a),
        SearchPlan::NotFound => Some(a),
        _ => if fuel == 0 {
            None
        } else {
            let (fs2, a2) = search_step(fs, max_depth, answer(t, a));
            run(t, fs2, a2, max_depth, (fuel - 1) as nat)
        },
    }
}

proof fn lemma_resume_finds(t: ProcTable, fs: Seq<FrameView>, max_depth: nat)
    requires
        frames_ok(fs, max_depth),
    ensures
        dfs_pending(t, resume(fs).0, resume(fs).1, max_depth) == dfs_rest(t, fs, max_depth),
        pending_fits(resume(fs).0, resume(fs).1, max_depth),
    decreases fs.len(),
{
    lemma_resume(fs, max_depth);
    if fs.len() > 0 {
        let f = fs.last();
        assert(f == fs[fs.len() - 1]);
        let d = fs.drop_last();
        assert forall|k: int| 0 <= k < d.len() implies #[trigger] d[k] == fs[k] by {}
        if f.kids.len() > 0 {
            let r = resume(fs).0;
            let rest = FrameView { kids: f.kids.drop_first(), ..f };
            assert(r.drop_last() == d.push(rest));
            assert(d.push(rest).drop_last() =~= d);
            assert(d.push(rest).last() == rest);
        } else if f.tasks.len() > 0 {
            let r = resume(fs).0;
            assert(r.drop_last() =~= d);
            assert(f.depth < max_depth);
        } else {
            lemma_resume_finds(t, d, max_depth);
        }
    }
}

proof fn lemma_step_finds(t: ProcTable, fs: Seq<FrameView>, a: SearchPlan, max_depth: nat)
    requires
        frames_ok(fs, max_depth),
        pending_fits(fs, a, max_depth),
        !(a is Found),
        !(a is NotFound),
    ensures
        dfs_pending(t, search_step(fs, max_depth, answer(t, a)).0, search_step(fs, max_depth, answer(t, a)).1, max_depth)
            == dfs_pending(t, fs, a, max_depth),
        pending_fits(search_step(fs, max_depth, answer(t, a)).0, search_step(fs, max_depth, answer(t, a)).1, max_depth),
        frames_ok(search_step(fs, max_depth, answer(t, a)).0, max_depth),
{
    law_search_stays_within_limit(fs, max_depth, answer(t, a));
    let f = fs.last();
    assert(f == fs[fs.len() - 1]);
    let d = fs.drop_last();
    assert forall|k: int| 0 <= k < d.len() implies #[trigger] d[k] == fs[k] by {}
    lemma_resume_finds(t, d, max_depth);
    match a {
        SearchPlan::ReadCgroup(p) => {},
        SearchPlan::ListTasks(p) => {
            match (t.tasks)(p) {
                Some(ns) => {
                    let g = d.push(FrameView { tasks: parsed_ids(ns), ..f });
                    assert forall|k: int| 0 <= k < g.len() implies (#[trigger] g[k]).depth == k && ((
                    g[k].tasks.len() > 0 || g[k].kids.len() > 0) ==> g[k].depth < max_depth) by {
                        if k < d.len() {
                            assert(g[k] == fs[k]);
                        }
                    }
                    lemma_resume_finds(t, g, max_depth);
                    assert(g.drop_last() =~= d);
                },
                None => {},
            }
        },
        SearchPlan::ReadChildren(p, tid) => {
            match (t.children)(p, tid) {
                Some(x) => {
                    let g = d.push(FrameView { kids: parsed_ids(words_of(x)), ..f });
                    assert forall|k: int| 0 <= k < g.len() implies (#[trigger] g[k]).depth == k && ((
                    g[k].tasks.len() > 0 || g[k].kids.len() > 0) ==> g[k].depth < max_depth) by {
                        if k < d.len() {
                            assert(g[k] == fs[k]);
                        }
                    }
                    lemma_resume_finds(t, g, max_depth);
                    assert(g.drop_last() =~= d);
                },
                None => {
                    lemma_resume_finds(t, fs, max_depth);
                },
            }
        },
        _ => {},
    }
}

proof fn lemma_run_finds(t: ProcTable, fs: Seq<FrameView>, a: SearchPlan, max_depth: nat, fuel: nat)
    requires
        frames_ok(fs, max_depth),
        pending_fits(fs, a, max_depth),
    ensures
        run(t, fs, a, max_depth, fuel) matches Some(r) ==> (r is Found || r is NotFound) && dfs_pending(
            t,
            fs,
            a,
            max_depth,
        ) == match r {
            SearchPlan::Found(x) => Some(x),
            _ => None,
        },
    decreases fuel,
{
    if !(a is Found) && !(a is NotFound) && fuel > 0 {
        lemma_step_finds(t, fs, a, max_depth);
        let (fs2, a2) = search_step(fs, max_depth, answer(t, a));
        lemma_run_finds(t, fs2, a2, max_depth, (fuel - 1) as nat);
    }
}

/// A whole search from `pid`, every file it asks for read from the table,
/// ends as the depth-first search from `pid` does: with the first app.slice
/// cgroup found, the process itself checked first, then its children task
/// by task down to the depth limit; and with nothing found only when that
/// search finds nothing. (A run that has not ended within `fuel` steps says
/// nothing.)
pub proof fn law_search_is_depth_first(t: ProcTable, pid: u32, max_depth: nat, fuel: nat)
    ensures
        run(t, seq![fresh_frame(pid, 0)], SearchPlan::ReadCgroup(pid), max_depth, fuel) matches Some(r)
            ==> match r {
            SearchPlan::Found(x) => dfs(t, pid, 0, max_depth) == Some(x),
            SearchPlan::NotFound => dfs(t, pid, 0, max_depth) is None,
            _ => false,
        },
{
    let fs = seq![fresh_frame(pid, 0)];
    assert(frames_ok(fs, max_depth));
    assert(fs.drop_last() =~= Seq::<FrameView>::empty());
    lemma_run_finds(t, fs, SearchPlan::ReadCgroup(pid), max_depth, fuel);
}

/// An upper bound on the reads a depth-first search from `pid` at `depth`
/// makes: its cgroup, above the limit its task list, and for each task its
/// children file and their searches.
pub open spec fn dfs_reads(t: ProcTable, pid: u32, depth: nat, max_depth: nat) -> nat
    decreases max_depth - depth, 2nat, 0nat,
{
    1 + if depth >= max_depth {
        0
    } else {
        1 + match (t.tasks)(pid) {
            Some(ns) => tasks_reads(t, pid, parsed_ids(ns), depth, max_depth),
            None => 0,
        }
    }
}

/// An upper bound on the reads made for the tasks `tids` of `pid`.
pub open spec fn tasks_reads(t: ProcTable, pid: u32, tids: Seq<u32>, depth: nat, max_depth: nat) -> nat
    decreases max_depth - depth, 1nat, tids.len(),
{
    if tids.len() == 0 || depth >= max_depth {
        0
    } else {
        1 + kids_reads(t, kids_of(t, pid, tids[0]), depth + 1, max_depth) + tasks_reads(
            t,
            pid,
            tids.drop_first(),
            depth,
            max_depth,
        )
    }
}

/// An upper bound on the reads made for the processes `kids` at `depth`.
pub open spec fn kids_reads(t: ProcTable, kids: Seq<u32>, depth: nat, max_depth: nat) -> nat
    decreases max_depth - depth, 3nat, kids.len(),
{
    if kids.len() == 0 {
        0
    } else {
        dfs_reads(t, kids[0], depth, max_depth) + kids_reads(t, kids.drop_first(), depth, max_depth)
    }
}

/// An upper bound on the reads left for the processes `fs`.
pub open spec fn rest_reads(t: ProcTable, fs: Seq<FrameView>, max_depth: nat) -> nat
    decreases fs.len(),
{
    if fs.len() == 0 {
        0
    } else {
        let f = fs.last();
        kids_reads(t, f.kids, f.depth + 1, max_depth) + tasks_reads(t, f.pid, f.tasks, f.depth, max_depth)
            + rest_reads(t, fs.drop_last(), max_depth)
    }
}

/// An upper bound on the reads left with `a` asked for next.
pub open spec fn pending_reads(t: ProcTable, fs: Seq<FrameView>, a: SearchPlan, max_depth: nat) -> nat {
    match a {
        SearchPlan::Found(_) => 0,
        SearchPlan::NotFound => 0,
        SearchPlan::ReadCgroup(p) => dfs_reads(t, p, fs.last().depth, max_depth) + rest_reads(
            t,
            fs.drop_last(),
            max_depth,
        ),
        SearchPlan::ListTasks(p) => 1 + match (t.tasks)(p) {
            Some(ns) => tasks_reads(t, p, parsed_ids(ns), fs.last().depth, max_depth),
            None => 0,
        } + rest_reads(t, fs.drop_last(), max_depth),
        SearchPlan::ReadChildren(p, tid) => 1 + kids_reads(
            t,
            kids_of(t, p, tid),
            fs.last().depth + 1,
            max_depth,
        ) + tasks_reads(t, p, fs.last().tasks, fs.last().depth, max_depth) + rest_reads(
            t,
            fs.drop_last(),
            max_depth,
        ),
    }
}

proof fn lemma_resume_reads(t: ProcTable, fs: Seq<FrameView>, max_depth: nat)
    requires
        frames_ok(fs, max_depth),
    ensures
        pending_reads(t, resume(fs).0, resume(fs).1, max_depth) <= rest_reads(t, fs, max_depth),
    decreases fs.len(),
{
    if fs.len() > 0 {
        let f = fs.last();
        assert(f == fs[fs.len() - 1]);
        let d = fs.drop_last();
        assert forall|k: int| 0 <= k < d.len() implies #[trigger] d[k] == fs[k] by {}
        if f.kids.len() > 0 {
            let r = resume(fs).0;
            let rest = FrameView { kids: f.kids.drop_first(), ..f };
            assert(r.drop_last() == d.push(rest));
            assert(d.push(rest).drop_last() =~= d);
            assert(d.push(rest).last() == rest);
        } else if f.tasks.len() > 0 {
            let r = resume(fs).0;
            assert(r.drop_last() =~= d);
            assert(f.depth < max_depth);
        } else {
            lemma_resume_reads(t, d, max_depth);
        }
    }
}

proof fn lemma_step_reads(t: ProcTable, fs: Seq<FrameView>, a: SearchPlan, max_depth: nat)
    requires
        frames_ok(fs, max_depth),
        pending_fits(fs, a, max_depth),
        !(a is Found),
        !(a is NotFound),
    ensures
        pending_reads(t, search_step(fs, max_depth, answer(t, a)).0, search_step(fs, max_depth, answer(t, a)).1, max_depth)
            < pending_reads(t, fs, a, max_depth),
{
    let f = fs.last();
    assert(f == fs[fs.len() - 1]);
    let d = fs.drop_last();
    assert forall|k: int| 0 <= k < d.len() implies #[trigger] d[k] == fs[k] by {}
    lemma_resume_reads(t, d, max_depth);
    match a {
        SearchPlan::ReadCgroup(p) => {},
        SearchPlan::ListTasks(p) => {
            match (t.tasks)(p) {
                Some(ns) => {
                    let g = d.push(FrameView { tasks: parsed_ids(ns), ..f });
                    assert forall|k: int| 0 <= k < g.len() implies (#[trigger] g[k]).depth == k && ((
                    g[k].tasks.len() > 0 || g[k].kids.len() > 0) ==> g[k].depth < max_depth) by {
                        if k < d.len() {
                            assert(g[k] == fs[k]);
                        }
                    }
                    lemma_resume_reads(t, g, max_depth);
                    assert(g.drop_last() =~= d);
                },
                None => {},
            }
        },
        SearchPlan::ReadChildren(p, tid) => {
            match (t.children)(p, tid) {
                Some(x) => {
                    let g = d.push(FrameView { kids: parsed_ids(words_of(x)), ..f });
                    assert forall|k: int| 0 <= k < g.len() implies (#[trigger] g[k]).depth == k && ((
                    g[k].tasks.len() > 0 || g[k].kids.len() > 0) ==> g[k].depth < max_depth) by {
                        if k < d.len() {
                            assert(g[k] == fs[k]);
                        }
                    }
                    lemma_resume_reads(t, g, max_depth);
                    assert(g.drop_last() =~= d);
                },
                None => {
                    lemma_resume_reads(t, fs, max_depth);
                },
            }
        },
        _ => {},
    }
}

proof fn lemma_run_ends(t: ProcTable, fs: Seq<FrameView>, a: SearchPlan, max_depth: nat, fuel: nat)
    requires
        frames_ok(fs, max_depth),
        pending_fits(fs, a, max_depth),
        fuel > pending_reads(t, fs, a, max_depth),
    ensures
        run(t, fs, a, max_depth, fuel) is Some,
    decreases fuel,
{
    if !(a is Found) && !(a is NotFound) {
        lemma_step_reads(t, fs, a, max_depth);
        lemma_step_finds(t, fs, a, max_depth);
        let (fs2, a2) = search_step(fs, max_depth, answer(t, a));
        lemma_run_ends(t, fs2, a2, max_depth, (fuel - 1) as nat);
    }
}

/// A whole search from `pid`, every file it asks for read from the table,
/// ends within `dfs_reads` steps: it finds the app.slice cgroup that the
/// depth-first search finds whenever there is one, and ends with nothing
/// found only when there is none.
pub proof fn law_search_ends(t: ProcTable, pid: u32, max_depth: nat)
    ensures
        ({
            let r = run(
                t,
                seq![fresh_frame(pid, 0)],
                SearchPlan::ReadCgroup(pid),
                max_depth,
                dfs_reads(t, pid, 0, max_depth) + 1,
            );
            &&& r is Some
            &&& (dfs(t, pid, 0, max_depth) matches Some(x) ==> r == Some(SearchPlan::Found(x)))
            &&& (dfs(t, pid, 0, max_depth) is None ==> r == Some(SearchPlan::NotFound))
        }),
{
    let fs = seq![fresh_frame(pid, 0)];
    assert(frames_ok(fs, max_depth));
    assert(fs.drop_last() =~= Seq::<FrameView>::empty());
    let fuel = dfs_reads(t, pid, 0, max_depth) + 1;
    lemma_run_ends(t, fs, SearchPlan::ReadCgroup(pid), max_depth, fuel);
    law_search_is_depth_first(t, pid, max_depth, fuel);
}

}
