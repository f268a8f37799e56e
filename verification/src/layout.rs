//! Where outputs, windows and workspaces are, as the compositor reports it.

use crate::search::{first_where, lemma_first_where, lemma_is_first};
use crate::text::same;
use vstd::prelude::*;

verus! {

/// An output.
#[derive(Clone, Copy, Debug, PartialEq, Eq, Structural)]
pub struct Output {
    pub id: u64,
}

/// A window, with the output of the monitor that it is on, where it is on one.
#[derive(Clone, Copy, Debug, PartialEq, Eq, Structural)]
pub struct Window {
    pub id: u64,
    pub output: Option<Output>,
}

/// How a request names a workspace.
#[derive(Debug, PartialEq, Eq)]
pub enum WorkspaceReference {
    Id(u64),
    Index(u8),
    Name(String),
}

/// A [`WorkspaceReference`] by its contents.
pub enum WorkspaceReferenceView {
    Id(u64),
    Index(u8),
    Name(Seq<char>),
}

impl View for WorkspaceReference {
    type V = WorkspaceReferenceView;

    open spec fn view(&self) -> WorkspaceReferenceView {
        match *self {
            WorkspaceReference::Id(id) => WorkspaceReferenceView::Id(id),
            WorkspaceReference::Index(index) => WorkspaceReferenceView::Index(index),
            WorkspaceReference::Name(name) => WorkspaceReferenceView::Name(name@),
        }
    }
}

impl WorkspaceReference {
    /// Whether the two name a workspace in the same way.
    pub fn is(&self, other: &WorkspaceReference) -> (answer: bool)
        ensures
            answer == (self@ == other@),
    {
        match (self, other) {
            (WorkspaceReference::Id(a), WorkspaceReference::Id(b)) => *a == *b,
            (WorkspaceReference::Index(a), WorkspaceReference::Index(b)) => *a == *b,
            (WorkspaceReference::Name(a), WorkspaceReference::Name(b)) => same(
                a.as_str(),
                b.as_str(),
            ),
            _ => false,
        }
    }
}

/// What a reference to a workspace stands for.
#[derive(Debug)]
pub struct Workspace {
    pub reference: WorkspaceReference,
    /// The output that the workspace is on. `None` stands for the focused output, as for a bare
    /// index.
    pub output: Option<Output>,
    /// The position of the workspace on its output.
    pub index: usize,
}

/// A name under which requests can ask for an output.
#[derive(Debug)]
pub struct OutputName {
    pub name: String,
    pub output: Output,
}

/// The layout as the compositor reports it.
#[derive(Debug)]
pub struct Layout {
    /// The outputs that a monitor drives.
    pub outputs: Vec<Output>,
    /// The focused output: the one whose monitor holds the keyboard focus.
    pub active_output: Option<Output>,
    /// The windows.
    pub windows: Vec<Window>,
    /// The names of outputs.
    pub names: Vec<OutputName>,
    /// The workspaces that can be referred to.
    pub workspaces: Vec<Workspace>,
}

/// The first window with the given id.
pub open spec fn window_with_id(layout: Layout, id: u64) -> Option<Window> {
    match first_where(layout.windows@, |window: Window| window.id == id) {
        Some(i) => Some(layout.windows@[i]),
        None => None,
    }
}

/// Whether an entry has the given name.
pub open spec fn entry_named(name: Seq<char>) -> spec_fn(OutputName) -> bool {
    |entry: OutputName| entry.name@ == name
}

/// Whether an entry has the given reference.
pub open spec fn entry_refers(reference: WorkspaceReferenceView) -> spec_fn(Workspace) -> bool {
    |entry: Workspace| entry.reference@ == reference
}

/// The output that goes by the given name.
pub open spec fn output_named(layout: Layout, name: Seq<char>) -> Option<Output> {
    match first_where(layout.names@, entry_named(name)) {
        Some(i) => Some(layout.names@[i].output),
        None => None,
    }
}

/// The output and the position of the workspace that a reference stands for.
pub open spec fn workspace_referred(layout: Layout, reference: WorkspaceReferenceView) -> Option<
    (Option<Output>, usize),
> {
    match first_where(layout.workspaces@, entry_refers(reference)) {
        Some(i) => Some((layout.workspaces@[i].output, layout.workspaces@[i].index)),
        None => None,
    }
}

/// Whether a monitor drives the output.
pub open spec fn has_monitor(layout: Layout, output: Output) -> bool {
    layout.outputs@.contains(output)
}

/// The outputs other than the focused one.
pub open spec fn other_outputs(layout: Layout) -> Seq<Output> {
    layout.outputs@.filter(|output: Output| layout.active_output != Some(output))
}

impl Layout {
    /// The first window with the given id.
    pub fn find_window(&self, id: u64) -> (found: Option<Window>)
        ensures
            found == window_with_id(*self, id),
    {
        let ghost wanted = |window: Window| window.id == id;
        for i in 0..self.windows.len()
            invariant
                wanted == (|window: Window| window.id == id),
                forall|j: int| 0 <= j < i ==> !wanted(#[trigger] self.windows@[j]),
        {
            if self.windows[i].id == id {
                proof {
                    lemma_is_first(self.windows@, wanted, i as int);
                }
                return Some(self.windows[i]);
            }
        }
        proof {
            lemma_first_where(self.windows@, wanted);
        }
        None
    }

    /// The output that goes by the given name.
    pub fn output_by_name(&self, name: &str) -> (found: Option<Output>)
        ensures
            found == output_named(*self, name@),
    {
        let ghost wanted = entry_named(name@);
        for i in 0..self.names.len()
            invariant
                wanted == entry_named(name@),
                forall|j: int| 0 <= j < i ==> !wanted(#[trigger] self.names@[j]),
        {
            if same(self.names[i].name.as_str(), name) {
                proof {
                    lemma_is_first(self.names@, wanted, i as int);
                }
                return Some(self.names[i].output);
            }
        }
        proof {
            lemma_first_where(self.names@, wanted);
        }
        None
    }

    /// The output and the position of the workspace that a reference stands for.
    pub fn find_workspace(&self, reference: &WorkspaceReference) -> (found: Option<
        (Option<Output>, usize),
    >)
        ensures
            found == workspace_referred(*self, reference@),
    {
        let ghost wanted = entry_refers(reference@);
        for i in 0..self.workspaces.len()
            invariant
                wanted == entry_refers(reference@),
                forall|j: int| 0 <= j < i ==> !wanted(#[trigger] self.workspaces@[j]),
        {
            if self.workspaces[i].reference.is(reference) {
                proof {
                    lemma_is_first(self.workspaces@, wanted, i as int);
                }
                return Some((self.workspaces[i].output, self.workspaces[i].index));
            }
        }
        proof {
            lemma_first_where(self.workspaces@, wanted);
        }
        None
    }

    /// Whether a monitor drives the output.
    pub fn is_driven(&self, output: Output) -> (answer: bool)
        ensures
            answer == has_monitor(*self, output),
    {
        for i in 0..self.outputs.len()
            invariant
                forall|j: int| 0 <= j < i ==> self.outputs@[j] != output,
        {
            if self.outputs[i] == output {
                return true;
            }
        }
        false
    }

    /// Whether `output` is the focused one.
    pub fn is_active(&self, output: Output) -> (answer: bool)
        ensures
            answer == (self.active_output == Some(output)),
    {
        match self.active_output {
            Some(active) => active == output,
            None => false,
        }
    }

    /// The outputs other than the focused one.
    pub fn inactive_outputs(&self) -> (others: Vec<Output>)
        ensures
            others@ == other_outputs(*self),
    {
        let ghost wanted = |output: Output| self.active_output != Some(output);
        let mut others: Vec<Output> = Vec::new();
        for i in 0..self.outputs.len()
            invariant
                wanted == (|output: Output| self.active_output != Some(output)),
                others@ == self.outputs@.take(i as int).filter(wanted),
        {
            proof {
                assert(self.outputs@.take(i + 1) =~= self.outputs@.take(i as int).push(
                    self.outputs@[i as int],
                ));
                self.outputs@.take(i as int).lemma_filter_push(self.outputs@[i as int], wanted);
            }
            let output: Output = self.outputs[i];
            if !self.is_active(output) {
                others.push(output);
            }
        }
        assert(self.outputs@.take(self.outputs.len() as int) =~= self.outputs@);
        others
    }
}

/// The window found is the first with the id, and there is none exactly where no window has it.
pub proof fn law_window_with_id(layout: Layout, id: u64)
    ensures
        window_with_id(layout, id) is None <==> forall|j: int|
            0 <= j < layout.windows@.len() ==> (#[trigger] layout.windows@[j]).id != id,
        forall|i: int|
            0 <= i < layout.windows@.len() && (#[trigger] layout.windows@[i]).id == id && (forall|
                j: int,
            |
                0 <= j < i ==> (#[trigger] layout.windows@[j]).id != id) ==> window_with_id(
                layout,
                id,
            ) == Some(layout.windows@[i]),
{
    let wanted = |window: Window| window.id == id;
    lemma_first_where(layout.windows@, wanted);
    assert forall|i: int|
        0 <= i < layout.windows@.len() && (#[trigger] layout.windows@[i]).id == id && (forall|
            j: int,
        |
            0 <= j < i ==> (#[trigger] layout.windows@[j]).id != id) implies window_with_id(
        layout,
        id,
    ) == Some(layout.windows@[i]) by {
        lemma_is_first(layout.windows@, wanted, i);
    }
    if window_with_id(layout, id) is None {
        assert forall|j: int| 0 <= j < layout.windows@.len() implies (
        #[trigger] layout.windows@[j]).id != id by {
            assert(!wanted(layout.windows@[j]));
        }
    }
}

/// The output of a name is that of its first entry, and there is none exactly where no entry has
/// the name.
pub proof fn law_output_named(layout: Layout, name: Seq<char>)
    ensures
        output_named(layout, name) is None <==> forall|j: int|
            0 <= j < layout.names@.len() ==> (#[trigger] layout.names@[j]).name@ != name,
        forall|i: int|
            0 <= i < layout.names@.len() && (#[trigger] layout.names@[i]).name@ == name && (forall|
                j: int,
            |
                0 <= j < i ==> (#[trigger] layout.names@[j]).name@ != name) ==> output_named(
                layout,
                name,
            ) == Some(layout.names@[i].output),
{
    let wanted = entry_named(name);
    lemma_first_where(layout.names@, wanted);
    assert forall|i: int|
        0 <= i < layout.names@.len() && (#[trigger] layout.names@[i]).name@ == name && (forall|
            j: int,
        |
            0 <= j < i ==> (#[trigger] layout.names@[j]).name@ != name) implies output_named(
        layout,
        name,
    ) == Some(layout.names@[i].output) by {
        lemma_is_first(layout.names@, wanted, i);
    }
    if output_named(layout, name) is None {
        assert forall|j: int| 0 <= j < layout.names@.len() implies (
        #[trigger] layout.names@[j]).name@ != name by {
            assert(!wanted(layout.names@[j]));
        }
    }
}

/// What a reference stands for is what its first entry says, and nothing exactly where no entry
/// has the reference.
pub proof fn law_workspace_referred(layout: Layout, reference: WorkspaceReferenceView)
    ensures
        workspace_referred(layout, reference) is None <==> forall|j: int|
            0 <= j < layout.workspaces@.len() ==> (#[trigger] layout.workspaces@[j]).reference@
                != reference,
        forall|i: int|
            0 <= i < layout.workspaces@.len() && (#[trigger] layout.workspaces@[i]).reference@
                == reference && (forall|j: int|
                0 <= j < i ==> (#[trigger] layout.workspaces@[j]).reference@ != reference)
                ==> workspace_referred(layout, reference) == Some(
                (layout.workspaces@[i].output, layout.workspaces@[i].index),
            ),
{
    let wanted = entry_refers(reference);
    lemma_first_where(layout.workspaces@, wanted);
    assert forall|i: int|
        0 <= i < layout.workspaces@.len() && (#[trigger] layout.workspaces@[i]).reference@
            == reference && (forall|j: int|
            0 <= j < i ==> (#[trigger] layout.workspaces@[j]).reference@
                != reference) implies workspace_referred(layout, reference) == Some(
        (layout.workspaces@[i].output, layout.workspaces@[i].index),
    ) by {
        lemma_is_first(layout.workspaces@, wanted, i);
    }
    if workspace_referred(layout, reference) is None {
        assert forall|j: int| 0 <= j < layout.workspaces@.len() implies (
        #[trigger] layout.workspaces@[j]).reference@ != reference by {
            assert(!wanted(layout.workspaces@[j]));
        }
    }
}

/// A reference shows its kind and what it names.
pub proof fn law_reference_view(reference: WorkspaceReference)
    ensures
        reference matches WorkspaceReference::Id(id) ==> reference@ == WorkspaceReferenceView::Id(
            id,
        ),
        reference matches WorkspaceReference::Index(index) ==> reference@
            == WorkspaceReferenceView::Index(index),
        reference matches WorkspaceReference::Name(name) ==> reference@
            == WorkspaceReferenceView::Name(name@),
{
}

/// A monitor drives exactly the outputs that are listed.
pub proof fn law_has_monitor(layout: Layout, output: Output)
    ensures
        has_monitor(layout, output) <==> exists|i: int|
            0 <= i < layout.outputs@.len() && #[trigger] layout.outputs@[i] == output,
{
}

/// The other outputs are those that are listed and not focused, as often as they are listed and in
/// the same order: adding an output to the list adds it to them, unless it is the focused one.
pub proof fn law_other_outputs(layout: Layout, longer: Layout, output: Output)
    requires
        longer.active_output == layout.active_output,
        longer.outputs@ == layout.outputs@.push(output),
    ensures
        layout.outputs@.len() == 0 ==> other_outputs(layout).len() == 0,
        layout.active_output == Some(output) ==> other_outputs(longer) == other_outputs(layout),
        layout.active_output != Some(output) ==> other_outputs(longer) == other_outputs(
            layout,
        ).push(output),
{
    let wanted = |o: Output| layout.active_output != Some(o);
    assert(other_outputs(layout) == layout.outputs@.filter(wanted));
    assert((|o: Output| longer.active_output != Some(o)) =~= wanted);
    layout.outputs@.lemma_filter_push(output, wanted);
    layout.outputs@.lemma_filter_len(wanted);
}

} // verus!
