//! The interaction state: search text and cursor, input mode, the filtered
//! view with its selection, and the pending edits; and the transition that
//! one key press makes.
use vstd::prelude::*;

use crate::keys::{Key, KeyPress};
use crate::paths::{filter_hits, PathItem, PathItems};
use crate::text::chars_of;
use crate::text::string_of;

verus! {

/// A command queued for an entry, applied when an edit session ends.
#[derive(Clone, Copy, Debug, PartialEq, Eq, Structural)]
pub enum PathEditCommand {
    Delete,
}

#[derive(Clone, Copy, Debug, PartialEq, Eq, Structural)]
pub enum InputMode {
    /// Keys move the highlight, pick an entry or mark it.
    Select,
    /// Keys edit the search text.
    Search,
}

/// A pending command, keyed by the path of the entry it is for.
#[derive(Debug)]
pub struct PathEdit {
    pub path: String,
    pub command: PathEditCommand,
}

/// The pending commands as a map from path to command.
pub open spec fn edits_map(s: Seq<PathEdit>) -> Map<Seq<char>, PathEditCommand>
    decreases s.len(),
{
    if s.len() == 0 {
        Map::empty()
    } else {
        edits_map(s.drop_last()).insert(s.last().path@, s.last().command)
    }
}

/// No two pending commands share a path.
pub open spec fn edit_paths_unique(s: Seq<PathEdit>) -> bool {
    forall|i: int, j: int|
        0 <= i < s.len() && 0 <= j < s.len() && i != j ==> #[trigger] s[i].path@
            != #[trigger] s[j].path@
}

/// Marking `path` for deletion, or unmarking it when it is marked.
pub open spec fn toggled(m: Map<Seq<char>, PathEditCommand>, path: Seq<char>) -> Map<
    Seq<char>,
    PathEditCommand,
> {
    if m.contains_key(path) {
        m.remove(path)
    } else {
        m.insert(path, PathEditCommand::Delete)
    }
}

/// The entries of `s` that no `Delete` command is pending for, in order.
pub open spec fn kept(s: Seq<PathItem>, m: Map<Seq<char>, PathEditCommand>) -> Seq<PathItem>
    decreases s.len(),
{
    if s.len() == 0 {
        seq![]
    } else {
        let rest = kept(s.drop_last(), m);
        let p = s.last().full_path@;
        if m.contains_key(p) && m[p] == PathEditCommand::Delete {
            rest
        } else {
            rest.push(s.last())
        }
    }
}

/// What the interaction state holds, as mathematical values.
pub struct TuiView {
    pub input: Seq<char>,
    pub cursor: nat,
    pub mode: InputMode,
    pub selected: nat,
    pub filtered: Seq<usize>,
    pub highlighted: Option<PathItem>,
    pub quit: bool,
    pub chosen: Option<PathItem>,
    pub edit_mode: bool,
    pub edits: Map<Seq<char>, PathEditCommand>,
}

/// The selection brought back into the filtered view, and the highlight set
/// to match it.
pub open spec fn reclamped(v: TuiView, items: Seq<PathItem>) -> TuiView {
    let n = v.filtered.len();
    let sel: nat = if n == 0 {
        0
    } else if v.selected >= n {
        (n - 1) as nat
    } else {
        v.selected
    };
    TuiView {
        selected: sel,
        highlighted: if n == 0 {
            None
        } else {
            Some(items[v.filtered[sel as int] as int])
        },
        ..v
    }
}

/// The state after the search text became `input`, with the cursor at `cursor`.
pub open spec fn with_input(v: TuiView, items: Seq<PathItem>, input: Seq<char>, cursor: nat) -> TuiView {
    reclamped(TuiView { input, cursor, filtered: filter_hits(items, input), ..v }, items)
}

/// The highlight one step towards the first entry.
pub open spec fn moved_down(v: TuiView, items: Seq<PathItem>) -> TuiView {
    if v.selected > 0 {
        reclamped(TuiView { selected: (v.selected - 1) as nat, ..v }, items)
    } else {
        v
    }
}

/// The highlight one step towards the last entry.
pub open spec fn moved_up(v: TuiView, items: Seq<PathItem>) -> TuiView {
    if v.filtered.len() > 0 && v.selected < v.filtered.len() - 1 {
        reclamped(TuiView { selected: v.selected + 1, ..v }, items)
    } else {
        v
    }
}

/// The pending commands after the delete mark of the highlighted entry flips.
pub open spec fn toggled_highlight(v: TuiView) -> TuiView {
    match v.highlighted {
        Some(p) => TuiView { edits: toggled(v.edits, p.full_path@), ..v },
        None => v,
    }
}

pub open spec fn select_step(v: TuiView, items: Seq<PathItem>, code: Key) -> TuiView {
    match code {
        Key::Char(c) => {
            if c == 's' {
                TuiView { mode: InputMode::Search, ..v }
            } else if c == 'q' {
                TuiView { quit: true, ..v }
            } else if c == 'j' {
                moved_down(v, items)
            } else if c == 'k' {
                moved_up(v, items)
            } else if c == 'd' && v.edit_mode {
                toggled_highlight(v)
            } else {
                v
            }
        },
        Key::Down => moved_down(v, items),
        Key::Up => moved_up(v, items),
        Key::Enter => {
            if v.filtered.len() > 0 {
                TuiView { chosen: v.highlighted, ..v }
            } else {
                v
            }
        },
        _ => v,
    }
}

pub open spec fn search_step(v: TuiView, items: Seq<PathItem>, key: KeyPress) -> TuiView {
    match key.code {
        Key::Down => moved_down(v, items),
        Key::Up => moved_up(v, items),
        Key::End => TuiView { cursor: v.input.len(), ..v },
        Key::Home => TuiView { cursor: 0, ..v },
        Key::Left => TuiView {
            cursor: if v.cursor > 0 {
                (v.cursor - 1) as nat
            } else {
                0
            },
            ..v
        },
        Key::Right => TuiView {
            cursor: if v.cursor < v.input.len() {
                v.cursor + 1
            } else {
                v.cursor
            },
            ..v
        },
        Key::Backspace => {
            if v.cursor > 0 {
                with_input(v, items, v.input.remove(v.cursor - 1), (v.cursor - 1) as nat)
            } else {
                v
            }
        },
        Key::Esc => TuiView { mode: InputMode::Select, ..v },
        Key::Enter => TuiView { mode: InputMode::Select, ..v },
        Key::Char(c) => {
            if key.ctrl && c == 'e' {
                TuiView { cursor: v.input.len(), ..v }
            } else if key.ctrl && c == 'a' {
                TuiView { cursor: 0, ..v }
            } else if key.ctrl && c == 'd' {
                with_input(v, items, seq![], 0)
            } else if v.input.len() + 1 < usize::MAX {
                with_input(v, items, v.input.insert(v.cursor as int, c), v.cursor + 1)
            } else {
                v
            }
        },
        _ => v,
    }
}

/// The state after one key press. Control-C quits whatever the mode.
pub open spec fn step(v: TuiView, items: Seq<PathItem>, key: KeyPress) -> TuiView {
    if key.ctrl && key.code == Key::Char('c') {
        TuiView { quit: true, ..v }
    } else {
        match v.mode {
            InputMode::Select => select_step(v, items, key.code),
            InputMode::Search => search_step(v, items, key),
        }
    }
}

/// The state after a sequence of key presses.
pub open spec fn steps(v: TuiView, items: Seq<PathItem>, keys: Seq<KeyPress>) -> TuiView
    decreases keys.len(),
{
    if keys.len() == 0 {
        v
    } else {
        step(steps(v, items, keys.drop_last()), items, keys.last())
    }
}

/// The filtered view matches the search text, the selection lies inside it
/// and the highlight is the selected entry.
pub open spec fn view_wf(v: TuiView, items: Seq<PathItem>) -> bool {
    &&& items.len() <= usize::MAX
    &&& v.cursor <= v.input.len()
    &&& v.input.len() < usize::MAX
    &&& v.filtered == filter_hits(items, v.input)
    &&& v.filtered.len() == 0 ==> v.selected == 0 && v.highlighted is None
    &&& v.filtered.len() > 0 ==> v.selected < v.filtered.len() && v.highlighted == Some(
        items[v.filtered[v.selected as int] as int],
    )
}

/// The state of one interactive session over a store.
pub struct TuiState<'a> {
    /// The search text.
    pub input: String,
    /// Position of the cursor in the search text, in characters.
    pub cursor: usize,
    pub input_mode: InputMode,
    /// Index of the selected entry in the filtered view.
    pub selected: usize,
    pub highlighted: Option<&'a PathItem>,
    /// Indices into `items` of the entries that match the search text.
    pub filtered: Vec<usize>,
    pub items: &'a PathItems,
    pub quit: bool,
    /// The entry the user picked.
    pub selected_path: Option<&'a PathItem>,
    /// Whether entries can be marked for deletion.
    pub edit_mode: bool,
    pub edits: Vec<PathEdit>,
}

pub open spec fn deref_item(p: Option<&PathItem>) -> Option<PathItem> {
    match p {
        Some(x) => Some(*x),
        None => None,
    }
}

impl<'a> View for TuiState<'a> {
    type V = TuiView;

    open spec fn view(&self) -> TuiView {
        TuiView {
            input: self.input@,
            cursor: self.cursor as nat,
            mode: self.input_mode,
            selected: self.selected as nat,
            filtered: self.filtered@,
            highlighted: deref_item(self.highlighted),
            quit: self.quit,
            chosen: deref_item(self.selected_path),
            edit_mode: self.edit_mode,
            edits: edits_map(self.edits@),
        }
    }
}

proof fn lemma_edits_lookup(s: Seq<PathEdit>)
    ensures
        forall|p: Seq<char>|
            #[trigger] edits_map(s).contains_key(p) <==> exists|i: int|
                0 <= i < s.len() && s[i].path@ == p,
        forall|i: int| 0 <= i < s.len() ==> edits_map(s)[#[trigger] s[i].path@] == s[i].command,
    decreases s.len(),
{
    if s.len() > 0 {
        let front = s.drop_last();
        lemma_edits_lookup(front);
        assert forall|p: Seq<char>| #[trigger]
            edits_map(s).contains_key(p) <==> exists|i: int| 0 <= i < s.len() && s[i].path@ == p by {
            if edits_map(s).contains_key(p) && p != s.last().path@ {
                let i = choose|i: int| 0 <= i < front.len() && front[i].path@ == p;
                assert(s[i] == front[i]);
            }
            if exists|i: int| 0 <= i < s.len() && s[i].path@ == p {
                let i = choose|i: int| 0 <= i < s.len() && s[i].path@ == p;
                if i < s.len() - 1 {
                    assert(front[i] == s[i]);
                }
            }
        }
        assert forall|i: int| 0 <= i < s.len() implies edits_map(s)[#[trigger] s[i].path@]
            == s[i].command by {
            if i < s.len() - 1 {
                assert(front[i] == s[i]);
                // a command is always `Delete`, so a later one for the same path agrees
                assert(s[i].command == s[s.len() - 1].command);
            }
        }
    }
}

proof fn lemma_edits_remove(s: Seq<PathEdit>, i: int)
    requires
        edit_paths_unique(s),
        0 <= i < s.len(),
    ensures
        edits_map(s.remove(i)) == edits_map(s).remove(s[i].path@),
        edit_paths_unique(s.remove(i)),
    decreases s.len(),
{
    let front = s.drop_last();
    let p = s[i].path@;
    assert(edit_paths_unique(s.remove(i))) by {
        assert forall|a: int, b: int|
            0 <= a < s.remove(i).len() && 0 <= b < s.remove(i).len() && a != b implies #[trigger] s.remove(i)[a].path@
            != #[trigger] s.remove(i)[b].path@ by {
            let a2 = if a < i { a } else { a + 1 };
            let b2 = if b < i { b } else { b + 1 };
            assert(s.remove(i)[a] == s[a2]);
            assert(s.remove(i)[b] == s[b2]);
        }
    }
    if i == s.len() - 1 {
        assert(s.remove(i) =~= front);
        lemma_edits_lookup(front);
        assert(!edits_map(front).contains_key(p)) by {
            if edits_map(front).contains_key(p) {
                let k = choose|k: int| 0 <= k < front.len() && front[k].path@ == p;
                assert(s[k] == front[k]);
            }
        }
        assert(edits_map(s).remove(p) =~= edits_map(front));
    } else {
        assert(edit_paths_unique(front));
        assert(front[i] == s[i]);
        lemma_edits_remove(front, i);
        assert(s.remove(i) =~= front.remove(i).push(s.last()));
        assert(s.remove(i).drop_last() =~= front.remove(i));
        assert(s[s.len() - 1].path@ != p);
        assert(edits_map(s.remove(i)) =~= edits_map(s).remove(p));
    }
}

proof fn lemma_edits_empty(s: Seq<PathEdit>)
    ensures
        (edits_map(s) =~= Map::empty()) <==> s.len() == 0,
{
    if s.len() > 0 {
        assert(edits_map(s).contains_key(s.last().path@));
    }
}

proof fn lemma_kept_step(s: Seq<PathItem>, m: Map<Seq<char>, PathEditCommand>, j: int)
    requires
        0 <= j < s.len(),
    ensures
        kept(s.take(j + 1), m) == if m.contains_key(s[j].full_path@) && m[s[j].full_path@]
            == PathEditCommand::Delete {
            kept(s.take(j), m)
        } else {
            kept(s.take(j), m).push(s[j])
        },
{
    assert(s.take(j + 1).drop_last() =~= s.take(j));
}

proof fn lemma_reclamped_wf(v: TuiView, items: Seq<PathItem>)
    requires
        items.len() <= usize::MAX,
        v.cursor <= v.input.len(),
        v.input.len() < usize::MAX,
        v.filtered == filter_hits(items, v.input),
    ensures
        view_wf(reclamped(v, items), items),
{
}

/// One key press keeps the state consistent.
pub proof fn lemma_step_keeps_wf(v: TuiView, items: Seq<PathItem>, key: KeyPress)
    requires
        view_wf(v, items),
    ensures
        view_wf(step(v, items, key), items),
{
    if v.cursor > 0 {
        lemma_reclamped_wf(
            TuiView {
                input: v.input.remove(v.cursor - 1),
                cursor: (v.cursor - 1) as nat,
                filtered: filter_hits(items, v.input.remove(v.cursor - 1)),
                ..v
            },
            items,
        );
    }
}

/// After any sequence of key presses from a consistent state, the selection
/// is an index of the filtered view when that view is not empty, and 0 when
/// it is: it lies in [0, max(0, k - 1)] for a view of length k.
pub proof fn lemma_selection_stays_in_view(v: TuiView, items: Seq<PathItem>, keys: Seq<KeyPress>)
    requires
        view_wf(v, items),
    ensures
        view_wf(steps(v, items, keys), items),
        steps(v, items, keys).filtered.len() == 0 ==> steps(v, items, keys).selected == 0,
        steps(v, items, keys).filtered.len() > 0 ==> steps(v, items, keys).selected < steps(
            v,
            items,
            keys,
        ).filtered.len(),
    decreases keys.len(),
{
    if keys.len() > 0 {
        lemma_selection_stays_in_view(v, items, keys.drop_last());
        lemma_step_keeps_wf(steps(v, items, keys.drop_last()), items, keys.last());
    }
}

/// Flipping the delete mark of a path twice leaves the pending commands as
/// they were.
pub proof fn lemma_toggle_twice(m: Map<Seq<char>, PathEditCommand>, path: Seq<char>)
    ensures
        toggled(toggled(m, path), path) == m,
{
    if m.contains_key(path) {
        assert(m[path] == PathEditCommand::Delete);
        assert(m.remove(path).insert(path, PathEditCommand::Delete) =~= m);
    } else {
        assert(m.insert(path, PathEditCommand::Delete).remove(path) =~= m);
    }
}

/// In an edit session, pressing the delete key twice on the same entry leaves
/// the pending commands as they were; from none pending, none are pending.
pub proof fn lemma_delete_key_twice(v: TuiView, items: Seq<PathItem>)
    requires
        v.mode == InputMode::Select,
        v.edit_mode,
    ensures
        step(
            step(v, items, KeyPress { code: Key::Char('d'), ctrl: false }),
            items,
            KeyPress { code: Key::Char('d'), ctrl: false },
        ).edits == v.edits,
{
    if let Some(p) = v.highlighted {
        lemma_toggle_twice(v.edits, p.full_path@);
    }
}

impl<'a> TuiState<'a> {
    /// The state is consistent: see `view_wf`; besides, no two pending
    /// commands share a path.
    pub open spec fn wf(&self) -> bool {
        &&& view_wf(self@, self.items@)
        &&& edit_paths_unique(self.edits@)
    }

    /// Every index of the filtered view is an index of the store.
    pub open spec fn indices_valid(&self) -> bool {
        forall|k: int| 0 <= k < self.filtered@.len() ==> #[trigger] self.filtered@[k] < self.items@.len()
    }

    /// A session over `items` that starts in search mode with an empty search,
    /// every entry in view and the first one highlighted.
    pub fn new(items: &'a PathItems, edit_mode: bool) -> (r: Self)
        ensures
            r.wf(),
            r.items == items,
            r@ == reclamped(
                TuiView {
                    input: seq![],
                    cursor: 0,
                    mode: InputMode::Search,
                    selected: 0,
                    filtered: filter_hits(items@, seq![]),
                    highlighted: None,
                    quit: false,
                    chosen: None,
                    edit_mode,
                    edits: Map::empty(),
                },
                items@,
            ),
    {
        let input = String::new();
        let filtered = items.filter_indices(&input);
        let mut state = TuiState {
            items,
            edit_mode,
            input,
            cursor: 0,
            filtered,
            input_mode: InputMode::Search,
            quit: false,
            selected: 0,
            selected_path: None,
            highlighted: None,
            edits: Vec::new(),
        };
        let len = items.paths.len();
        proof {
            assert(items@.len() == len);
            crate::paths::lemma_filter_keeps_order(items@, seq![]);
            assert(state@.edits =~= Map::empty());
        }
        state.set_highlighted();
        state
    }

    /// Brings the selection back into the filtered view and sets the
    /// highlight to the selected entry.
    pub fn set_highlighted(&mut self)
        requires
            old(self).indices_valid(),
        ensures
            final(self)@ == reclamped(old(self)@, old(self).items@),
            final(self).items == old(self).items,
            final(self).edits == old(self).edits,
            final(self).indices_valid(),
    {
        if self.filtered.len() == 0 {
            self.selected = 0;
        } else if self.selected >= self.filtered.len() {
            self.selected = self.filtered.len() - 1;
        }
        self.highlighted = if self.filtered.len() > 0 {
            Some(&self.items.paths[self.filtered[self.selected]])
        } else {
            None
        };
    }

    /// Flips the command `cmd` on the highlighted entry: a `Delete` mark is
    /// set when absent and taken away when present.
    pub fn set_path_command(&mut self, cmd: PathEditCommand)
        requires
            edit_paths_unique(old(self).edits@),
        ensures
            edit_paths_unique(final(self).edits@),
            final(self)@ == toggled_highlight(old(self)@),
            final(self).items == old(self).items,
            final(self).filtered == old(self).filtered,
    {
        let highlighted = match self.highlighted {
            Some(item) => item,
            None => {
                return ;
            },
        };
        proof {
            lemma_edits_lookup(self.edits@);
        }
        match cmd {
            PathEditCommand::Delete => {
                match self.edit_index(&highlighted.full_path) {
                    Some(i) => {
                        proof {
                            lemma_edits_remove(self.edits@, i as int);
                        }
                        self.edits.remove(i);
                    },
                    None => {
                        let ghost before = self.edits@;
                        self.edits.push(
                            PathEdit { path: highlighted.full_path.clone(), command: cmd },
                        );
                        proof {
                            assert(self.edits@.drop_last() =~= before);
                            assert forall|a: int, b: int|
                                0 <= a < self.edits@.len() && 0 <= b < self.edits@.len() && a
                                    != b implies #[trigger] self.edits@[a].path@
                                != #[trigger] self.edits@[b].path@ by {
                                if a < before.len() && b < before.len() {
                                    assert(self.edits@[a] == before[a]);
                                    assert(self.edits@[b] == before[b]);
                                } else if a < before.len() {
                                    assert(self.edits@[a] == before[a]);
                                } else {
                                    assert(self.edits@[b] == before[b]);
                                }
                            }
                        }
                    },
                }
            },
        }
    }

    /// Position of the pending command for `path`, if any.
    fn edit_index(&self, path: &String) -> (r: Option<usize>)
        ensures
            r matches Some(i) ==> i < self.edits@.len() && self.edits@[i as int].path@ == path@,
            r is None ==> forall|i: int|
                0 <= i < self.edits@.len() ==> #[trigger] self.edits@[i].path@ != path@,
    {
        let mut i: usize = 0;
        while i < self.edits.len()
            invariant
                i <= self.edits@.len(),
                forall|k: int| 0 <= k < i ==> #[trigger] self.edits@[k].path@ != path@,
            decreases self.edits@.len() - i,
        {
            if self.edits[i].path == *path {
                return Some(i);
            }
            i += 1;
        }
        None
    }

    /// The command pending for `item`, if any.
    pub fn path_command(&self, item: &PathItem) -> (r: Option<&PathEditCommand>)
        ensures
            r is None <==> !self@.edits.contains_key(item.full_path@),
            r matches Some(c) ==> *c == self@.edits[item.full_path@],
    {
        proof {
            lemma_edits_lookup(self.edits@);
        }
        match self.edit_index(&item.full_path) {
            Some(i) => Some(&self.edits[i].command),
            None => None,
        }
    }

    /// The store with the pending commands applied, or `None` when no command
    /// is pending.
    pub fn edited_items(&self) -> (r: Option<PathItems>)
        ensures
            r is None <==> self@.edits =~= Map::empty(),
            r matches Some(p) ==> p@ == kept(self.items@, self@.edits),
    {
        proof {
            lemma_edits_empty(self.edits@);
            lemma_edits_lookup(self.edits@);
        }
        if self.edits.len() == 0 {
            return None;
        }
        let ghost m = self@.edits;
        let ghost s = self.items@;
        let mut paths: Vec<PathItem> = Vec::new();
        let mut i: usize = 0;
        assert(s.take(0) =~= seq![]);
        while i < self.items.paths.len()
            invariant
                i <= s.len(),
                s == self.items@,
                m == self@.edits,
                forall|p: Seq<char>|
                    #[trigger] m.contains_key(p) <==> exists|k: int|
                        0 <= k < self.edits@.len() && self.edits@[k].path@ == p,
                paths@ == kept(s.take(i as int), m),
            decreases s.len() - i,
        {
            let item = &self.items.paths[i];
            proof {
                lemma_kept_step(s, m, i as int);
                assert(m.contains_key(item.full_path@) ==> m[item.full_path@]
                    == PathEditCommand::Delete);
            }
            match self.edit_index(&item.full_path) {
                Some(_) => {},
                None => {
                    paths.push(item.duplicate());
                },
            }
            i += 1;
        }
        assert(s.take(s.len() as int) =~= s);
        Some(PathItems { paths })
    }

    fn move_down(&mut self)
        requires
            old(self).wf(),
        ensures
            final(self).wf(),
            final(self)@ == moved_down(old(self)@, old(self).items@),
            final(self).items == old(self).items,
    {
        proof {
            crate::paths::lemma_filter_keeps_order(self.items@, self.input@);
        }
        if self.selected > 0 {
            self.selected -= 1;
            self.set_highlighted();
        }
    }

    fn move_up(&mut self)
        requires
            old(self).wf(),
        ensures
            final(self).wf(),
            final(self)@ == moved_up(old(self)@, old(self).items@),
            final(self).items == old(self).items,
    {
        proof {
            crate::paths::lemma_filter_keeps_order(self.items@, self.input@);
        }
        if self.filtered.len() > 0 && self.selected < self.filtered.len() - 1 {
            self.selected += 1;
            self.set_highlighted();
        }
    }

    /// Replaces the search text, moves the cursor, and recomputes the view.
    fn set_input(&mut self, text: &Vec<char>, cursor: usize)
        requires
            old(self).wf(),
            cursor <= text@.len(),
            text@.len() < usize::MAX,
        ensures
            final(self).wf(),
            final(self)@ == with_input(old(self)@, old(self).items@, text@, cursor as nat),
            final(self).items == old(self).items,
    {
        self.input = string_of(text);
        self.cursor = cursor;
        self.filtered = self.items.filter_indices(&self.input);
        proof {
            crate::paths::lemma_filter_keeps_order(self.items@, self.input@);
        }
        self.set_highlighted();
    }

    /// Runs the transition of one key press; see `step`.
    pub fn handle_key(&mut self, key: KeyPress)
        requires
            old(self).wf(),
        ensures
            final(self).wf(),
            final(self)@ == step(old(self)@, old(self).items@, key),
            final(self).items == old(self).items,
    {
        if key.ctrl {
            if let Key::Char(c) = key.code {
                if c == 'c' {
                    self.quit = true;
                    return ;
                }
            }
        }
        match self.input_mode {
            InputMode::Select => match key.code {
                Key::Char(c) => {
                    if c == 's' {
                        self.input_mode = InputMode::Search;
                    } else if c == 'q' {
                        self.quit = true;
                    } else if c == 'j' {
                        self.move_down();
                    } else if c == 'k' {
                        self.move_up();
                    } else if c == 'd' && self.edit_mode {
                        self.set_path_command(PathEditCommand::Delete);
                    }
                },
                Key::Down => self.move_down(),
                Key::Up => self.move_up(),
                Key::Enter => {
                    if self.filtered.len() > 0 {
                        self.selected_path = self.highlighted;
                    }
                },
                _ => {},
            },
            InputMode::Search => match key.code {
                Key::Down => self.move_down(),
                Key::Up => self.move_up(),
                Key::End => {
                    self.cursor = chars_of(&self.input).len();
                },
                Key::Home => {
                    self.cursor = 0;
                },
                Key::Left => {
                    if self.cursor > 0 {
                        self.cursor -= 1;
                    }
                },
                Key::Right => {
                    if self.cursor < chars_of(&self.input).len() {
                        self.cursor += 1;
                    }
                },
                Key::Backspace => {
                    if self.cursor > 0 {
                        let mut text = chars_of(&self.input);
                        text.remove(self.cursor - 1);
                        self.set_input(&text, self.cursor - 1);
                    }
                },
                Key::Esc | Key::Enter => {
                    self.input_mode = InputMode::Select;
                },
                Key::Char(c) => {
                    if key.ctrl && c == 'e' {
                        self.cursor = chars_of(&self.input).len();
                    } else if key.ctrl && c == 'a' {
                        self.cursor = 0;
                    } else if key.ctrl && c == 'd' {
                        let text: Vec<char> = Vec::new();
                        self.set_input(&text, 0);
                    } else {
                        let mut text = chars_of(&self.input);
                        if text.len() + 1 < usize::MAX {
                            text.insert(self.cursor, c);
                            self.set_input(&text, self.cursor + 1);
                        }
                    }
                },
                _ => {},
            },
        }
    }

    /// The session is over: the user quit or picked an entry.
    pub fn finished(&self) -> (r: bool)
        ensures
            r == (self.quit || self.selected_path is Some),
    {
        self.quit || self.selected_path.is_some()
    }

    /// What an edit session saves when it ends: the store with the pending
    /// commands applied when the session was an edit session that ended by
    /// quitting and some command is pending; nothing otherwise. Picking an
    /// entry saves nothing.
    pub fn edit_result(&self) -> (r: Option<PathItems>)
        ensures
            !(self.edit_mode && self.quit) ==> r is None,
            self.edit_mode && self.quit ==> (r is None <==> self@.edits =~= Map::empty()),
            self.edit_mode && self.quit ==> (r matches Some(p) ==> p@ == kept(
                self.items@,
                self@.edits,
            )),
    {
        if self.edit_mode && self.quit {
            self.edited_items()
        } else {
            None
        }
    }
}

} // verus!
