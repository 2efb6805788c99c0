//! The interactive edit session, as a state machine over the caption
//! table. The surrounding program raises the events (an item selected,
//! an edit submitted or cancelled, the session quit) and performs the
//! actions (opening the editor, launching the external viewer,
//! refreshing a row); every decision in between is made here. Editing
//! never changes the number or order of records, only the caption of the
//! selected one.

use vstd::prelude::*;
use crate::chars::lemma_filter_push;
use crate::record::CaptionRecord;
use crate::record::ViewCommand;
use crate::record::label_of;

verus! {

/// The configured viewer arguments with every backslash removed; the
/// escape lets an argument that looks like a flag pass through the
/// program's own option parsing.
pub open spec fn strip_bs(s: Seq<char>) -> Seq<char> {
    s.filter(|c: char| c != '\\')
}

/// Removes every backslash from a string.
pub fn strip_backslashes(s: &str) -> (r: String)
    ensures
        r@ == strip_bs(s@),
{
    let n = s.unicode_len();
    let mut out = String::new();
    let mut i: usize = 0;
    proof {
        assert(s@.take(0).filter(|c: char| c != '\\') =~= Seq::<char>::empty());
    }
    while i < n
        invariant
            0 <= i <= n,
            n == s@.len(),
            out@ == strip_bs(s@.take(i as int)),
        decreases n - i,
    {
        let c = s.get_char(i);
        proof {
            assert(s@.take(i as int + 1) =~= s@.take(i as int).push(s@[i as int]));
            lemma_filter_push(s@.take(i as int), |c: char| c != '\\', s@[i as int]);
        }
        if c != '\\' {
            out.push(c);
        }
        i = i + 1;
    }
    proof {
        assert(s@.take(n as int) =~= s@);
    }
    out
}

/// An external viewer invocation: the program and its full argument
/// list.
#[derive(Debug)]
pub struct Invocation {
    /// The executable to launch.
    pub program: String,
    /// The arguments, in order.
    pub args: Vec<String>,
}

/// The configured arguments of a view command, backslashes stripped.
pub open spec fn configured_args(vc: ViewCommand) -> Seq<Seq<char>> {
    match vc.args {
        Some(a) => a.deep_view().map_values(|s: Seq<char>| strip_bs(s)),
        None => Seq::empty(),
    }
}

/// The arguments an external viewer is launched with: the configured
/// arguments, backslashes stripped, with the selected image's path
/// appended last.
pub open spec fn viewer_invocation_args(vc: ViewCommand, image_path: Seq<char>) -> Seq<Seq<char>> {
    configured_args(vc).push(image_path)
}

/// Builds the invocation of the external viewer for one image.
pub fn build_viewer_invocation(vc: &ViewCommand, image_path: &String) -> (inv: Invocation)
    ensures
        inv.program@ == vc.command@,
        inv.args.deep_view() == viewer_invocation_args(*vc, image_path@),
{
    let mut args: Vec<String> = Vec::new();
    match &vc.args {
        Some(a) => {
            let mut i: usize = 0;
            while i < a.len()
                invariant
                    0 <= i <= a@.len(),
                    args@.len() == i,
                    forall|k: int| 0 <= k < i ==> (#[trigger] args@[k])@ == strip_bs(a@[k]@),
                decreases a@.len() - i,
            {
                args.push(strip_backslashes(a[i].as_str()));
                i = i + 1;
            }
        }
        None => {}
    }
    args.push(image_path.clone());
    proof {
        assert(args.deep_view() =~~= viewer_invocation_args(*vc, image_path@));
    }
    Invocation { program: vc.command.clone(), args }
}

/// The state of the edit session.
#[derive(Debug, Clone, Copy, PartialEq, Eq, Structural)]
pub enum SessionState {
    /// The list is shown; an item may be selected or the session quit.
    Listing,
    /// The record at `selected` is being edited.
    Editing { selected: usize },
    /// The session has ended.
    Terminated,
}

/// An event raised by the surrounding program.
#[derive(Debug)]
pub enum SessionEvent {
    /// The item at `index` was chosen for editing.
    Select { index: usize },
    /// The edited caption text was committed.
    Submit { text: String },
    /// The edit was abandoned.
    Cancel,
    /// The session was quit explicitly.
    Quit,
}

/// An action the surrounding program must perform in response.
#[derive(Debug)]
pub enum SessionAction {
    /// Open the edit field, prefilled with the current caption, after
    /// launching the viewer if one is given (a launch failure is
    /// reported but does not block editing).
    OpenEditor { viewer: Option<Invocation>, prefill: String },
    /// Redraw the row at `index` with the new label.
    RefreshRow { index: usize, label: String },
    /// Tear the session down.
    End,
    /// Nothing: the event does not apply in the current state.
    Ignore,
}

/// The edit session: the caption table and the current state.
#[derive(Debug)]
pub struct EditSession {
    /// The caption table being edited.
    pub records: Vec<CaptionRecord>,
    /// The current state.
    pub state: SessionState,
}

impl EditSession {
    /// A selected index always lies inside the table.
    pub open spec fn wf(&self) -> bool {
        self.state matches SessionState::Editing { selected } ==> selected < self.records@.len()
    }

    /// Starts a session over the given table, listing.
    pub fn new(records: Vec<CaptionRecord>) -> (s: EditSession)
        ensures
            s.records@ == records@,
            s.state == SessionState::Listing,
            s.wf(),
    {
        EditSession { records, state: SessionState::Listing }
    }

    /// Feeds one event to the session and yields the action to perform.
    /// Selecting a listed item enters editing and opens the editor
    /// (launching the viewer first when one is configured); submitting
    /// rewrites exactly the selected record's caption and refreshes its
    /// label; cancelling changes nothing; quitting ends the session.
    /// Every other combination is ignored.
    pub fn step(&mut self, event: SessionEvent, view_command: &Option<ViewCommand>) -> (a:
        SessionAction)
        requires
            old(self).wf(),
        ensures
            final(self).wf(),
            final(self).records@.len() == old(self).records@.len(),
            old(self).state is Listing ==> (event matches SessionEvent::Select { index } ==> (
            if index < old(self).records@.len() {
                &&& final(self).state == SessionState::Editing { selected: index }
                &&& final(self).records == old(self).records
                &&& a matches SessionAction::OpenEditor { viewer, prefill }
                &&& ({
                    let rec = old(self).records@[index as int];
                    &&& prefill@ == rec.caption@
                    &&& match view_command {
                        Some(vc) => viewer matches Some(inv) && inv.program@ == vc.command@
                            && inv.args.deep_view() == viewer_invocation_args(*vc, rec.image_path@),
                        None => viewer is None,
                    }
                })
            } else {
                *final(self) == *old(self) && a is Ignore
            })),
            old(self).state is Listing ==> (event is Quit ==> final(self).state
                == SessionState::Terminated && final(self).records == old(self).records && a is End),
            old(self).state is Listing ==> ((event is Submit || event is Cancel) ==> *final(self)
                == *old(self) && a is Ignore),
            old(self).state matches SessionState::Editing { selected } ==> (
            event matches SessionEvent::Submit { text } ==> {
                let pre = old(self).records@;
                let post = final(self).records@;
                &&& final(self).state == SessionState::Listing
                &&& post.len() == pre.len()
                &&& post[selected as int].image_path@ == pre[selected as int].image_path@
                &&& post[selected as int].caption@ == text@
                &&& forall|k: int|
                    0 <= k < pre.len() && k != selected ==> post[k] == pre[k]
                &&& a matches SessionAction::RefreshRow { index, label }
                &&& index == selected
                &&& label@ == label_of(pre[selected as int].image_path@, text@)
            }),
            old(self).state is Editing ==> (event is Cancel ==> final(self).state
                == SessionState::Listing && final(self).records == old(self).records
                && a is Ignore),
            old(self).state is Editing ==> ((event is Select || event is Quit) ==> *final(self)
                == *old(self) && a is Ignore),
            old(self).state is Terminated ==> *final(self) == *old(self) && a is Ignore,
    {
        let st = self.state;
        match st {
            SessionState::Listing => {
                match event {
                    SessionEvent::Select { index } => {
                        if index < self.records.len() {
                            self.state = SessionState::Editing { selected: index };
                            let prefill = self.records[index].caption.clone();
                            let viewer = match view_command {
                                Some(vc) => Some(
                                    build_viewer_invocation(vc, &self.records[index].image_path),
                                ),
                                None => None,
                            };
                            SessionAction::OpenEditor { viewer, prefill }
                        } else {
                            SessionAction::Ignore
                        }
                    }
                    SessionEvent::Quit => {
                        self.state = SessionState::Terminated;
                        SessionAction::End
                    }
                    SessionEvent::Submit { text: _ } => SessionAction::Ignore,
                    SessionEvent::Cancel => SessionAction::Ignore,
                }
            }
            SessionState::Editing { selected } => {
                match event {
                    SessionEvent::Submit { text } => {
                        let old_rec = self.records.remove(selected);
                        let new_rec = CaptionRecord { image_path: old_rec.image_path, caption: text };
                        let label = new_rec.get_label();
                        self.records.insert(selected, new_rec);
                        self.state = SessionState::Listing;
                        proof {
                            assert(forall|k: int|
                                0 <= k < old(self).records@.len() && k != selected
                                    ==> final(self).records@[k] == old(self).records@[k]);
                        }
                        SessionAction::RefreshRow { index: selected, label }
                    }
                    SessionEvent::Cancel => {
                        self.state = SessionState::Listing;
                        SessionAction::Ignore
                    }
                    SessionEvent::Select { index: _ } => SessionAction::Ignore,
                    SessionEvent::Quit => SessionAction::Ignore,
                }
            }
            SessionState::Terminated => SessionAction::Ignore,
        }
    }
}

} // verus!
