//! Editor state: the tab list, the active tab, the find bar and the zoom
//! level, and the operations that change them.

use vstd::prelude::*;

use crate::find::{next_index, prev_index, FindState, SearchStep};
use crate::util::{decimal, push_decimal};
use vstd::string::StringExecFns;

verus! {

/// Font size a new editor starts with.
pub const DEFAULT_FONT_SIZE: u32 = 13;

/// Smallest font size zooming out reaches.
pub const MIN_FONT_SIZE: u32 = 8;

/// Largest font size zooming in reaches.
pub const MAX_FONT_SIZE: u32 = 48;

/// What a tab shows: an empty scratch buffer, an open file (`F` is whatever
/// the caller keeps for it), or the error met when opening one.
pub enum TabContent<F> {
    Scratch,
    File(F),
    Error(String),
}

pub struct TabEntry<F> {
    pub title: String,
    /// The file the tab was opened from; `None` for scratch tabs.
    pub path: Option<String>,
    pub content: TabContent<F>,
    /// Set once a tab opens so rendering can focus its viewport.
    pub needs_focus: bool,
}

/// What `open_find` asks of the caller.
pub enum FindOpen {
    /// The active tab shows no file: nothing happens.
    Ignored,
    /// The find bar is already open for this tab: focus its input again.
    Refocus,
    /// A new find bar was opened for the active tab.
    Opened,
}

/// The editor's state.
pub struct TextEditor<F> {
    pub tabs: Vec<TabEntry<F>>,
    pub active_tab: usize,
    /// Find bar; `None` when hidden. Bound to whatever tab was active when opened.
    pub find: Option<FindState>,
    /// Current font size in pixels; adjusted by zoom in/out.
    pub font_size: u32,
}

/// The tab shows a file.
pub open spec fn is_file<F>(c: TabContent<F>) -> bool {
    c is File
}

/// Number of scratch tabs among `tabs`.
pub open spec fn scratch_count<F>(tabs: Seq<TabEntry<F>>) -> nat
    decreases tabs.len(),
{
    if tabs.len() == 0 {
        0
    } else {
        scratch_count(tabs.drop_last()) + if tabs.last().content is Scratch {
            1nat
        } else {
            0nat
        }
    }
}

/// Law: a tab content shows a file exactly when it is the `File` variant;
/// scratch and error tabs show none.
pub proof fn lemma_only_file_content_is_file<F>(c: TabContent<F>)
    ensures
        is_file(c) <==> (c matches TabContent::File(_)),
        !is_file(TabContent::<F>::Scratch),
        forall|msg: String| !(#[trigger] is_file(TabContent::<F>::Error(msg))),
{
}

/// Law: `scratch_count` is the number of tabs whose content is `Scratch`:
/// the length of the tabs filtered on that, so that appending a file or
/// error tab leaves it unchanged and appending a scratch tab adds one.
pub proof fn lemma_scratch_count_counts_scratch_tabs<F>(tabs: Seq<TabEntry<F>>, t: TabEntry<F>)
    ensures
        scratch_count(tabs) == tabs.filter(|x: TabEntry<F>| x.content is Scratch).len(),
        scratch_count(tabs) <= tabs.len(),
        scratch_count(tabs.push(t)) == scratch_count(tabs) + if t.content is Scratch {
            1int
        } else {
            0int
        },
    decreases tabs.len(),
{
    reveal(Seq::filter);
    if tabs.len() > 0 {
        lemma_scratch_count_counts_scratch_tabs(tabs.drop_last(), tabs.last());
    }
    assert(tabs.push(t).drop_last() =~= tabs);
}

/// Title of the `n`-th scratch tab: "Untitled", then "Untitled 2", ...
pub open spec fn scratch_title(n: nat) -> Seq<char> {
    if n == 1 {
        "Untitled"@
    } else {
        "Untitled "@ + decimal(n)
    }
}

/// Tab `i` was opened from `path`.
pub open spec fn opened_from<F>(tab: TabEntry<F>, path: Seq<char>) -> bool {
    tab.path matches Some(p) && p@ == path
}

/// Tab `i` is the first one opened from `path`.
pub open spec fn is_first_from_path<F>(tabs: Seq<TabEntry<F>>, path: Seq<char>, i: int) -> bool {
    &&& 0 <= i < tabs.len()
    &&& opened_from(tabs[i], path)
    &&& forall|j: int| 0 <= j < i ==> !opened_from(#[trigger] tabs[j], path)
}

/// No tab was opened from `path`.
pub open spec fn no_tab_from_path<F>(tabs: Seq<TabEntry<F>>, path: Seq<char>) -> bool {
    forall|j: int| 0 <= j < tabs.len() ==> !opened_from(#[trigger] tabs[j], path)
}

/// `moved` raised to 0, then lowered to the last of `total` lines
/// (`total - 1`, saturating at `i64::MIN`).
pub open spec fn scroll_clamp(moved: int, total: int) -> int {
    let last = if total > i64::MIN {
        total - 1
    } else {
        total
    };
    let lower = if moved > 0 {
        moved
    } else {
        0
    };
    if lower < last {
        lower
    } else {
        last
    }
}

impl<F> TextEditor<F> {
    /// There are tabs and the active one is among them.
    pub open spec fn has_active_tab(&self) -> bool {
        &&& self.tabs@.len() > 0
        &&& self.active_tab < self.tabs@.len()
    }

    /// At least one tab, the active one among them, and a well-formed find
    /// bar.
    pub open spec fn wf(&self) -> bool {
        &&& self.tabs@.len() > 0
        &&& self.active_tab < self.tabs@.len()
        &&& self.find matches Some(f) ==> f.wf()
    }

    /// One "Untitled" scratch tab, active, no find bar, default font size.
    pub fn new() -> (r: Self)
        ensures
            r.wf(),
            r.tabs@.len() == 1,
            r.tabs@[0].title@ == "Untitled"@,
            r.tabs@[0].content is Scratch,
            r.tabs@[0].needs_focus,
            r.active_tab == 0,
            r.find is None,
            r.font_size == DEFAULT_FONT_SIZE,
    {
        let mut tabs: Vec<TabEntry<F>> = Vec::new();
        tabs.push(
            TabEntry {
                title: String::from_str("Untitled"),
                path: None,
                content: TabContent::Scratch,
                needs_focus: true,
            },
        );
        TextEditor { tabs, active_tab: 0, find: None, font_size: DEFAULT_FONT_SIZE }
    }

    /// One pixel larger, at most `MAX_FONT_SIZE`.
    pub fn zoom_in(&mut self)
        ensures
            final(self).font_size == if old(self).font_size + 1 <= MAX_FONT_SIZE {
                old(self).font_size + 1
            } else {
                MAX_FONT_SIZE as int
            },
            final(self).tabs == old(self).tabs,
            final(self).active_tab == old(self).active_tab,
            final(self).find == old(self).find,
    {
        self.font_size = if self.font_size < MAX_FONT_SIZE {
            self.font_size + 1
        } else {
            MAX_FONT_SIZE
        };
    }

    /// One pixel smaller, at least `MIN_FONT_SIZE`.
    pub fn zoom_out(&mut self)
        ensures
            final(self).font_size == if old(self).font_size - 1 >= MIN_FONT_SIZE {
                old(self).font_size - 1
            } else {
                MIN_FONT_SIZE as int
            },
            final(self).tabs == old(self).tabs,
            final(self).active_tab == old(self).active_tab,
            final(self).find == old(self).find,
    {
        self.font_size = if self.font_size > MIN_FONT_SIZE + 1 {
            self.font_size - 1
        } else {
            MIN_FONT_SIZE
        };
    }

    /// Number of scratch tabs.
    fn count_scratch(&self) -> (n: usize)
        ensures
            n == scratch_count(self.tabs@),
            n <= self.tabs@.len(),
    {
        let mut n: usize = 0;
        let mut i: usize = 0;
        while i < self.tabs.len()
            invariant
                0 <= i <= self.tabs@.len(),
                n == scratch_count(self.tabs@.take(i as int)),
                n <= i,
            decreases self.tabs@.len() - i,
        {
            proof {
                assert(self.tabs@.take(i + 1).drop_last() =~= self.tabs@.take(i as int));
            }
            match self.tabs[i].content {
                TabContent::Scratch => {
                    n = n + 1;
                },
                _ => {},
            }
            i = i + 1;
        }
        proof {
            assert(self.tabs@.take(i as int) =~= self.tabs@);
        }
        n
    }

    /// Adds a scratch tab titled after the number of scratch tabs it makes
    /// ("Untitled", "Untitled 2", ...) and makes it active.
    pub fn new_scratch_tab(&mut self)
        requires
            old(self).tabs@.len() < usize::MAX,
        ensures
            final(self).tabs@.len() == old(self).tabs@.len() + 1,
            final(self).tabs@.take(old(self).tabs@.len() as int) == old(self).tabs@,
            final(self).tabs@.last().title@ == scratch_title(scratch_count(old(self).tabs@) + 1),
            final(self).tabs@.last().content is Scratch,
            final(self).tabs@.last().path is None,
            final(self).tabs@.last().needs_focus,
            final(self).active_tab == old(self).tabs@.len(),
            final(self).find == old(self).find,
            final(self).font_size == old(self).font_size,
            old(self).wf() ==> final(self).wf(),
    {
        let n = self.count_scratch() + 1;
        let title = if n == 1 {
            String::from_str("Untitled")
        } else {
            let mut t = String::from_str("Untitled ");
            push_decimal(&mut t, n as u64);
            t
        };
        let ghost before = self.tabs@;
        self.tabs.push(TabEntry { title, path: None, content: TabContent::Scratch, needs_focus: true });
        self.active_tab = self.tabs.len() - 1;
        assert(self.tabs@.take(before.len() as int) =~= before);
    }

    /// Index of the first tab opened from `path`, if any.
    pub fn tab_with_path(&self, path: &String) -> (r: Option<usize>)
        ensures
            match r {
                Some(i) => is_first_from_path(self.tabs@, path@, i as int),
                None => no_tab_from_path(self.tabs@, path@),
            },
    {
        let mut i: usize = 0;
        while i < self.tabs.len()
            invariant
                0 <= i <= self.tabs@.len(),
                forall|j: int| 0 <= j < i ==> !opened_from(#[trigger] self.tabs@[j], path@),
            decreases self.tabs@.len() - i,
        {
            let same = match &self.tabs[i].path {
                Some(p) => *p == *path,
                None => false,
            };
            if same {
                return Some(i);
            }
            i = i + 1;
        }
        None
    }

    /// Opens a tab titled `title` for the file at `path`. When that file is
    /// already open its tab just becomes active; otherwise a new, active tab
    /// shows the file (`opened` is `Ok`) or the error met opening it.
    pub fn open_file(&mut self, path: String, title: String, opened: Result<F, String>)
        requires
            old(self).tabs@.len() < usize::MAX,
        ensures
            !no_tab_from_path(old(self).tabs@, path@) ==> {
                &&& final(self).tabs == old(self).tabs
                &&& is_first_from_path(old(self).tabs@, path@, final(self).active_tab as int)
            },
            no_tab_from_path(old(self).tabs@, path@) ==> {
                &&& final(self).tabs@.len() == old(self).tabs@.len() + 1
                &&& final(self).tabs@.take(old(self).tabs@.len() as int) == old(self).tabs@
                &&& final(self).tabs@.last().title@ == title@
                &&& final(self).tabs@.last().path matches Some(p) && p@ == path@
                &&& final(self).active_tab == old(self).tabs@.len()
                &&& match opened {
                    Ok(f) => final(self).tabs@.last().content == TabContent::File(f)
                        && final(self).tabs@.last().needs_focus,
                    Err(e) => final(self).tabs@.last().content == TabContent::<F>::Error(e)
                        && !final(self).tabs@.last().needs_focus,
                }
            },
            final(self).find == old(self).find,
            final(self).font_size == old(self).font_size,
            old(self).wf() ==> final(self).wf(),
    {
        // Switch to the existing tab if this file is already open.
        match self.tab_with_path(&path) {
            Some(idx) => {
                self.active_tab = idx;
                return;
            },
            None => {},
        }
        let ghost before = self.tabs@;
        let entry = match opened {
            Ok(mf) => TabEntry {
                title,
                path: Some(path),
                content: TabContent::File(mf),
                needs_focus: true,
            },
            Err(e) => TabEntry {
                title,
                path: Some(path),
                content: TabContent::Error(e),
                needs_focus: false,
            },
        };
        self.tabs.push(entry);
        self.active_tab = self.tabs.len() - 1;
        assert(self.tabs@.take(before.len() as int) =~= before);
    }

    /// Makes tab `ix` active when there is such a tab.
    pub fn select_tab(&mut self, ix: usize)
        ensures
            ix < old(self).tabs@.len() ==> final(self).active_tab == ix,
            ix >= old(self).tabs@.len() ==> final(self).active_tab == old(self).active_tab,
            final(self).tabs == old(self).tabs,
            final(self).find == old(self).find,
            final(self).font_size == old(self).font_size,
            old(self).wf() ==> final(self).wf(),
    {
        if ix < self.tabs.len() {
            self.active_tab = ix;
        }
    }

    /// Closes tab `index` (nothing happens when there is no such tab). The
    /// last tab closed is replaced by a fresh "Untitled" scratch tab; the
    /// active tab stays the same tab when it is another one, otherwise the
    /// tab now at its place (or the last) becomes active. The find bar closes
    /// with its own tab; otherwise it follows its tab to its new index (and
    /// closes should that tab not show a file).
    pub fn close_tab(&mut self, index: usize)
        ensures
            index >= old(self).tabs@.len() ==> *final(self) == *old(self),
            index < old(self).tabs@.len() ==> {
                let rest = old(self).tabs@.remove(index as int);
                &&& rest.len() == 0 ==> {
                    &&& final(self).tabs@.len() == 1
                    &&& final(self).tabs@[0].title@ == "Untitled"@
                    &&& final(self).tabs@[0].path is None
                    &&& final(self).tabs@[0].content is Scratch
                    &&& final(self).tabs@[0].needs_focus
                    &&& final(self).active_tab == 0
                }
                &&& rest.len() > 0 ==> {
                    &&& final(self).tabs@ == rest
                    &&& old(self).active_tab == index ==> final(self).active_tab == if index
                        < rest.len() {
                        index as int
                    } else {
                        rest.len() - 1
                    }
                    &&& old(self).active_tab > index ==> final(self).active_tab
                        == old(self).active_tab - 1
                    &&& old(self).active_tab < index ==> final(self).active_tab
                        == old(self).active_tab
                }
                &&& final(self).find == match old(self).find {
                    Some(f) => if f.tab_index == index {
                        None
                    } else {
                        let t = if f.tab_index > index {
                            f.tab_index - 1
                        } else {
                            f.tab_index as int
                        };
                        if t < final(self).tabs@.len() && is_file(final(self).tabs@[t].content) {
                            Some(FindState { tab_index: t as usize, ..f })
                        } else {
                            None
                        }
                    },
                    None => None,
                }
                &&& final(self).find matches Some(g) ==> old(self).find matches Some(f)
                    && f.tab_index < old(self).tabs@.len() && final(self).tabs@[g.tab_index as int]
                    == old(self).tabs@[f.tab_index as int]
            },
            final(self).font_size == old(self).font_size,
            old(self).wf() ==> final(self).wf(),
    {
        if index >= self.tabs.len() {
            return;
        }
        let ghost old_tabs = self.tabs@;
        self.tabs.remove(index);
        if self.tabs.len() == 0 {
            self.tabs.push(
                TabEntry {
                    title: String::from_str("Untitled"),
                    path: None,
                    content: TabContent::Scratch,
                    needs_focus: true,
                },
            );
            self.active_tab = 0;
        } else if self.active_tab == index {
            let last = self.tabs.len() - 1;
            self.active_tab = if self.active_tab < last {
                self.active_tab
            } else {
                last
            };
        } else if self.active_tab > index {
            self.active_tab = self.active_tab - 1;
        }
        // The find bar closes with its tab, and follows it otherwise.
        match self.find.take() {
            Some(mut find) => {
                if find.tab_index != index {
                    if find.tab_index > index {
                        find.tab_index = find.tab_index - 1;
                    }
                    if find.tab_index < self.tabs.len() && self.tab_is_file(find.tab_index) {
                        self.find = Some(find);
                    }
                }
            },
            None => {},
        }
        proof {
            if self.find is Some {
                let g = self.find->Some_0;
                if old_tabs.len() == 1 {
                    assert(!is_file(self.tabs@[0].content));
                } else {
                    assert(self.tabs@ == old_tabs.remove(index as int));
                }
            }
        }
    }

    /// Tab `ix` shows a file.
    fn tab_is_file(&self, ix: usize) -> (r: bool)
        requires
            ix < self.tabs@.len(),
        ensures
            r == is_file(self.tabs@[ix as int].content),
    {
        match self.tabs[ix].content {
            TabContent::File(_) => true,
            _ => false,
        }
    }

    /// The active tab shows a file.
    pub open spec fn active_is_file(&self) -> bool {
        is_file(self.tabs@[self.active_tab as int].content)
    }

    /// Line to scroll the active file tab to after moving `delta` lines
    /// (positive = down) from line `current_top`, kept within the file's
    /// `total` lines. `None` when the active tab shows no file.
    pub fn scroll_lines(&self, delta: i64, current_top: i64, total: i64) -> (r: Option<usize>)
        requires
            self.has_active_tab(),
            i64::MIN <= current_top + delta <= i64::MAX,
        ensures
            !self.active_is_file() ==> r is None,
            self.active_is_file() ==> r == Some(
                scroll_clamp(current_top + delta, total as int) as usize,
            ),
    {
        if !self.tab_is_file(self.active_tab) {
            return None;
        }
        let last = if total > i64::MIN {
            total - 1
        } else {
            total
        };
        let moved = current_top + delta;
        let lower = if moved > 0 {
            moved
        } else {
            0
        };
        let clamped = if lower < last {
            lower
        } else {
            last
        };
        Some(clamped as usize)
    }

    /// First line, when the active tab shows a file.
    pub fn scroll_to_start(&self) -> (r: Option<usize>)
        requires
            self.has_active_tab(),
        ensures
            r == if self.active_is_file() {
                Some(0usize)
            } else {
                None
            },
    {
        if self.tab_is_file(self.active_tab) {
            Some(0)
        } else {
            None
        }
    }

    /// Last of the file's `total` lines, when the active tab shows a file.
    pub fn scroll_to_end(&self, total: usize) -> (r: Option<usize>)
        requires
            self.has_active_tab(),
        ensures
            r == if self.active_is_file() {
                Some(
                    if total > 0 {
                        (total - 1) as usize
                    } else {
                        0usize
                    },
                )
            } else {
                None
            },
    {
        if self.tab_is_file(self.active_tab) {
            Some(total.saturating_sub(1))
        } else {
            None
        }
    }

    /// Brings an out-of-range active tab back to the last tab.
    pub fn clamp_active_tab(&mut self)
        ensures
            old(self).active_tab < old(self).tabs@.len() ==> final(self).active_tab
                == old(self).active_tab,
            old(self).active_tab >= old(self).tabs@.len() ==> final(self).active_tab == if old(
                self,
            ).tabs@.len() > 0 {
                old(self).tabs@.len() - 1
            } else {
                0
            },
            final(self).tabs == old(self).tabs,
            final(self).find == old(self).find,
            final(self).font_size == old(self).font_size,
    {
        if self.active_tab >= self.tabs.len() {
            self.active_tab = self.tabs.len().saturating_sub(1);
        }
    }

    /// Reports, and clears, the active tab's request to focus its viewport.
    pub fn take_needs_focus(&mut self) -> (r: bool)
        requires
            old(self).has_active_tab(),
        ensures
            r == old(self).tabs@[old(self).active_tab as int].needs_focus,
            final(self).tabs@.len() == old(self).tabs@.len(),
            forall|i: int|
                0 <= i < final(self).tabs@.len() && i != old(self).active_tab ==> final(self).tabs@[i]
                    == old(self).tabs@[i],
            final(self).tabs@[old(self).active_tab as int] == (TabEntry {
                needs_focus: false,
                ..old(self).tabs@[old(self).active_tab as int]
            }),
            final(self).active_tab == old(self).active_tab,
            final(self).find == old(self).find,
            final(self).font_size == old(self).font_size,
            old(self).wf() ==> final(self).wf(),
    {
        let i = self.active_tab;
        let needs = self.tabs[i].needs_focus;
        if needs {
            let mut tab = self.tabs.remove(i);
            tab.needs_focus = false;
            self.tabs.insert(i, tab);
        }
        needs
    }

    /// Ctrl+F: opens the find bar for the active tab when it shows a file.
    /// If already open and bound to this tab, the caller refocuses its input.
    pub fn open_find(&mut self) -> (r: FindOpen)
        requires
            old(self).has_active_tab(),
        ensures
            !(old(self).tabs@[old(self).active_tab as int].content is File) ==> r is Ignored
                && *final(self) == *old(self),
            !old(self).active_is_file() ==> r is Ignored && *final(self) == *old(self),
            old(self).active_is_file() && (old(self).find matches Some(f) && f.tab_index
                == old(self).active_tab) ==> r is Refocus && *final(self) == *old(self),
            old(self).active_is_file() && !(old(self).find matches Some(f) && f.tab_index
                == old(self).active_tab) ==> {
                &&& r is Opened
                &&& final(self).find matches Some(f) && f.tab_index == old(self).active_tab
                    && !f.case_sensitive && f.num_matches == 0 && f.current == 0 && f.search_gen
                    == 0 && !f.pending_scroll && f.last_query@ == Seq::<char>::empty()
                &&& final(self).tabs == old(self).tabs
                &&& final(self).active_tab == old(self).active_tab
                &&& final(self).font_size == old(self).font_size
            },
            old(self).wf() ==> final(self).wf(),
    {
        let active = self.active_tab;
        if !self.tab_is_file(active) {
            return FindOpen::Ignored;
        }
        let bound_here = match &self.find {
            Some(find) => find.tab_index == active,
            None => false,
        };
        if bound_here {
            return FindOpen::Refocus;
        }
        self.find = Some(FindState::new(active));
        FindOpen::Opened
    }

    /// Hides the find bar; reports whether one was open.
    pub fn close_find(&mut self) -> (closed: bool)
        ensures
            closed == (old(self).find is Some),
            final(self).find is None,
            final(self).tabs == old(self).tabs,
            final(self).active_tab == old(self).active_tab,
            final(self).font_size == old(self).font_size,
            old(self).wf() ==> final(self).wf(),
    {
        let closed = self.find.is_some();
        self.find = None;
        closed
    }

    /// The find bar is open and bound to a tab that shows a file.
    pub open spec fn find_on_file(&self) -> bool {
        self.find matches Some(f) && f.tab_index < self.tabs@.len() && is_file(
            self.tabs@[f.tab_index as int].content,
        )
    }

    /// Records the find bar's current `query`: nothing happens unless the
    /// bar is open on a file tab; then `FindState::begin_search` decides.
    pub fn kick_off_search(&mut self, query: String) -> (step: SearchStep)
        requires
            old(self).find_on_file() && query@ != old(self).find->Some_0.last_query@ ==> old(
                self,
            ).find->Some_0.search_gen < u64::MAX,
        ensures
            !old(self).find_on_file() ==> step is Idle && *final(self) == *old(self),
            old(self).find_on_file() ==> {
                let f = old(self).find->Some_0;
                let g = final(self).find->Some_0;
                &&& final(self).find is Some
                &&& query@ == f.last_query@ ==> step is Idle && g == f
                &&& query@ != f.last_query@ ==> {
                    &&& g.last_query@ == query@
                    &&& g.search_gen == f.search_gen + 1
                    &&& g.case_sensitive == f.case_sensitive
                    &&& g.tab_index == f.tab_index
                    &&& g.pending_scroll == f.pending_scroll
                    &&& query@.len() == 0 ==> step is Cleared && g.num_matches == 0 && g.current
                        == 0
                    &&& query@.len() > 0 ==> step == (SearchStep::Start {
                        generation: g.search_gen,
                        case_insensitive: !f.case_sensitive,
                    }) && g.num_matches == f.num_matches && g.current == f.current
                }
            },
            final(self).tabs == old(self).tabs,
            final(self).active_tab == old(self).active_tab,
            final(self).font_size == old(self).font_size,
            old(self).wf() ==> final(self).wf(),
    {
        let on_file = match &self.find {
            Some(find) => find.tab_index < self.tabs.len() && self.tab_is_file(find.tab_index),
            None => false,
        };
        if !on_file {
            return SearchStep::Idle;
        }
        let mut find = self.find.take().unwrap();
        let step = find.begin_search(query);
        self.find = Some(find);
        step
    }

    /// Takes the results of search `generation`; see
    /// `FindState::finish_search`. Refused when the find bar was closed.
    pub fn finish_search(&mut self, generation: u64, count: usize) -> (applied: bool)
        ensures
            old(self).find is None ==> !applied && *final(self) == *old(self),
            old(self).find matches Some(f) ==> {
                let g = final(self).find->Some_0;
                &&& final(self).find is Some
                &&& applied == (generation == f.search_gen)
                &&& applied ==> g.num_matches == count && g.current == 0 && g.pending_scroll
                    && g.search_gen == f.search_gen && g.last_query == f.last_query
                    && g.case_sensitive == f.case_sensitive && g.tab_index == f.tab_index
                &&& !applied ==> g == f
            },
            final(self).tabs == old(self).tabs,
            final(self).active_tab == old(self).active_tab,
            final(self).font_size == old(self).font_size,
            old(self).wf() ==> final(self).wf(),
    {
        match self.find.take() {
            Some(mut find) => {
                let applied = find.finish_search(generation, count);
                self.find = Some(find);
                applied
            },
            None => false,
        }
    }

    /// Moves to the next match, wrapping around; reports whether it moved.
    pub fn find_next(&mut self) -> (moved: bool)
        requires
            old(self).find matches Some(f) ==> f.num_matches == 0 || f.current < usize::MAX,
        ensures
            old(self).find is None ==> !moved && *final(self) == *old(self),
            old(self).find matches Some(f) ==> {
                let g = final(self).find->Some_0;
                &&& final(self).find is Some
                &&& moved == (f.num_matches > 0)
                &&& moved ==> g == FindState {
                    current: next_index(f.current as int, f.num_matches as int) as usize,
                    pending_scroll: true,
                    ..f
                }
                &&& !moved ==> g == f
            },
            final(self).tabs == old(self).tabs,
            final(self).active_tab == old(self).active_tab,
            final(self).font_size == old(self).font_size,
            old(self).wf() ==> final(self).wf(),
    {
        match self.find.take() {
            Some(mut find) => {
                let moved = find.find_next();
                self.find = Some(find);
                moved
            },
            None => false,
        }
    }

    /// Moves to the previous match, wrapping around; reports whether it
    /// moved.
    pub fn find_prev(&mut self) -> (moved: bool)
        ensures
            old(self).find is None ==> !moved && *final(self) == *old(self),
            old(self).find matches Some(f) ==> {
                let g = final(self).find->Some_0;
                &&& final(self).find is Some
                &&& moved == (f.num_matches > 0)
                &&& moved ==> g == FindState {
                    current: prev_index(f.current as int, f.num_matches as int) as usize,
                    pending_scroll: true,
                    ..f
                }
                &&& !moved ==> g == f
            },
            final(self).tabs == old(self).tabs,
            final(self).active_tab == old(self).active_tab,
            final(self).font_size == old(self).font_size,
            old(self).wf() ==> final(self).wf(),
    {
        match self.find.take() {
            Some(mut find) => {
                let moved = find.find_prev();
                self.find = Some(find);
                moved
            },
            None => false,
        }
    }

    /// Flips the find bar's case sensitivity and forgets its last query,
    /// then records `query` as `kick_off_search` does, so that it is searched
    /// again under the new casing.
    pub fn toggle_find_case(&mut self, query: String) -> (step: SearchStep)
        requires
            old(self).find_on_file() && query@.len() > 0 ==> old(self).find->Some_0.search_gen
                < u64::MAX,
        ensures
            old(self).find is None ==> step is Idle && *final(self) == *old(self),
            old(self).find matches Some(f) ==> {
                let g = final(self).find->Some_0;
                &&& final(self).find is Some
                &&& g.case_sensitive == !f.case_sensitive
                &&& g.tab_index == f.tab_index
                &&& g.num_matches == f.num_matches
                &&& g.current == f.current
                &&& g.pending_scroll == f.pending_scroll
                &&& !old(self).find_on_file() ==> step is Idle && g.last_query@
                    == Seq::<char>::empty() && g.search_gen == f.search_gen
                &&& old(self).find_on_file() && query@.len() == 0 ==> step is Idle
                    && g.last_query@ == query@ && g.search_gen == f.search_gen
                &&& old(self).find_on_file() && query@.len() > 0 ==> step == (SearchStep::Start {
                    generation: (f.search_gen + 1) as u64,
                    case_insensitive: f.case_sensitive,
                }) && g.last_query@ == query@ && g.search_gen == f.search_gen + 1
            },
            final(self).tabs == old(self).tabs,
            final(self).active_tab == old(self).active_tab,
            final(self).font_size == old(self).font_size,
            old(self).wf() ==> final(self).wf(),
    {
        match self.find.take() {
            Some(mut find) => {
                find.toggle_case();
                self.find = Some(find);
                assert(self.find_on_file() == old(self).find_on_file());
            },
            None => {
                return SearchStep::Idle;
            },
        }
        proof {
            if query@.len() == 0 {
                assert(query@ =~= Seq::<char>::empty());
            }
        }
        self.kick_off_search(query)
    }

    /// When the find bar is bound to tab `active` and a scroll to the active
    /// match is pending, clears the request and gives the line to scroll to
    /// (three lines above `active_match_line`, saturating at 0), if a match
    /// is active.
    pub fn take_pending_scroll(&mut self, active: usize, active_match_line: Option<u64>) -> (r:
        Option<u64>)
        ensures
            (old(self).find matches Some(f) && f.tab_index == active && f.pending_scroll) ==> {
                let f = old(self).find->Some_0;
                &&& final(self).find == Some(FindState { pending_scroll: false, ..f })
                &&& r == match active_match_line {
                    Some(line) => Some(
                        if line >= 3 {
                            (line - 3) as u64
                        } else {
                            0u64
                        },
                    ),
                    None => None,
                }
            },
            !(old(self).find matches Some(f) && f.tab_index == active && f.pending_scroll) ==> r
                is None && *final(self) == *old(self),
            final(self).tabs == old(self).tabs,
            final(self).active_tab == old(self).active_tab,
            final(self).font_size == old(self).font_size,
            old(self).wf() ==> final(self).wf(),
    {
        match self.find.take() {
            Some(mut f) => {
                let pending = f.tab_index == active && f.pending_scroll;
                if pending {
                    f.pending_scroll = false;
                }
                self.find = Some(f);
                if pending {
                    match active_match_line {
                        Some(line) => Some(line.saturating_sub(3)),
                        None => None,
                    }
                } else {
                    None
                }
            },
            None => None,
        }
    }
}

} // verus!