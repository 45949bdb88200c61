//! Interaction events that widgets publish and a controller applies to the
//! interaction state.

use vstd::prelude::*;

use crate::graph::{DependencyId, Framework};

verus! {

/// Events representing user interactions. Widgets publish these instead of
/// mutating state directly; the controller applies them.
#[derive(Debug)]
pub enum InteractionEvent {
    Select(DependencyId),
    Highlight(DependencyId),
    SelectFramework(Framework),
}

/// What an event is, with the framework by its name.
pub enum EventView {
    Select(u32),
    Highlight(u32),
    SelectFramework(Seq<char>),
}

impl View for InteractionEvent {
    type V = EventView;

    open spec fn view(&self) -> EventView {
        match self {
            InteractionEvent::Select(id) => EventView::Select(id.ix),
            InteractionEvent::Highlight(id) => EventView::Highlight(id.ix),
            InteractionEvent::SelectFramework(f) => EventView::SelectFramework(f@),
        }
    }
}

/// Holds data about interactions on the graph.
#[derive(Debug)]
struct InteractionState {
    selected: Option<DependencyId>,
    highlighted: Option<DependencyId>,
    selected_framework: Option<Framework>,
    pan_to_dependency: Option<DependencyId>,
}

/// What the interaction state is: the selected, highlighted and panned-to
/// dependencies and the selected framework.
pub struct StateView {
    pub selected: Option<u32>,
    pub highlighted: Option<u32>,
    pub selected_framework: Option<Seq<char>>,
    pub pan_to_dependency: Option<u32>,
}

/// An event applied to the state: a selection also pans to the dependency.
pub open spec fn apply_event(s: StateView, e: EventView) -> StateView {
    match e {
        EventView::Select(id) => StateView { selected: Some(id), pan_to_dependency: Some(id), ..s },
        EventView::Highlight(id) => StateView { highlighted: Some(id), ..s },
        EventView::SelectFramework(f) => StateView { selected_framework: Some(f), ..s },
    }
}

/// The events applied in order.
pub open spec fn apply_events(s: StateView, es: Seq<EventView>) -> StateView
    decreases es.len(),
{
    if es.len() == 0 {
        s
    } else {
        apply_event(apply_events(s, es.drop_last()), es.last())
    }
}

/// Controller that collects interaction events and applies them to the
/// interaction state. Widgets publish events and read the state through it.
#[derive(Debug)]
pub struct InteractionController {
    state: InteractionState,
    pending: Vec<InteractionEvent>,
}

impl InteractionController {
    /// The interaction state.
    pub closed spec fn state(&self) -> StateView {
        StateView {
            selected: match self.state.selected {
                Some(id) => Some(id.ix),
                None => None,
            },
            highlighted: match self.state.highlighted {
                Some(id) => Some(id.ix),
                None => None,
            },
            selected_framework: match self.state.selected_framework {
                Some(f) => Some(f@),
                None => None,
            },
            pan_to_dependency: match self.state.pan_to_dependency {
                Some(id) => Some(id.ix),
                None => None,
            },
        }
    }

    /// The events published and not applied yet.
    pub closed spec fn pending(&self) -> Seq<EventView> {
        self.pending@.map_values(|e: InteractionEvent| e@)
    }

    /// A controller with nothing selected and no pending event.
    pub fn new() -> (r: Self)
        ensures
            r.state() == (StateView {
                selected: None,
                highlighted: None,
                selected_framework: None,
                pan_to_dependency: None,
            }),
            r.pending().len() == 0,
    {
        let r = Self {
            state: InteractionState {
                selected: None,
                highlighted: None,
                selected_framework: None,
                pan_to_dependency: None,
            },
            pending: Vec::new(),
        };
        proof {
            assert(r.pending() =~= Seq::<EventView>::empty());
        }
        r
    }

    /// Publish an event which will be processed when `process_pending`
    /// is called (usually between UI panels in a frame).
    pub fn publish(&mut self, ev: InteractionEvent)
        ensures
            final(self).state() == old(self).state(),
            final(self).pending() == old(self).pending().push(ev@),
    {
        self.pending.push(ev);
        proof {
            assert(self.pending() =~= old(self).pending().push(ev@));
        }
    }

    /// Apply pending events to the state. Events are applied in order.
    ///
    /// Resets highlighted and pan_to_dependency. The selected dependency, or
    /// else the one panned to, is made visible.
    pub fn process_pending(&mut self, visible_nodes: &mut Vec<DependencyId>)
        requires
            old(visible_nodes)@.no_duplicates(),
        ensures
            final(self).pending().len() == 0,
            final(self).state() == apply_events(
                (StateView { highlighted: None, pan_to_dependency: None, ..old(self).state() }),
                old(self).pending(),
            ),
            final(visible_nodes)@.no_duplicates(),
            forall|id: DependencyId|
                final(visible_nodes)@.contains(id) == (old(visible_nodes)@.contains(id) || revealed(final(self).state())
                    == Some(id.ix)),
    {
        self.state.highlighted = None;
        self.state.pan_to_dependency = None;
        let ghost s0 = self.state();
        let ghost es = self.pending();
        let mut events: Vec<InteractionEvent> = Vec::new();
        std::mem::swap(&mut events, &mut self.pending);
        proof {
            assert(es.take(0) =~= Seq::<EventView>::empty());
        }
        for ev in it: events.into_iter()
            invariant
                es == it.seq().map_values(|e: InteractionEvent| e@),
                self.state() == apply_events(s0, es.take(it.index() as int)),
                self.pending@.len() == 0,
        {
            proof {
                assert(es.take(it.index() + 1).drop_last() =~= es.take(it.index() as int));
                assert(es[it.index() as int] == ev@);
            }
            match ev {
                InteractionEvent::Select(opt) => {
                    self.state.selected = Some(opt);
                    self.state.pan_to_dependency = Some(opt);
                },
                InteractionEvent::Highlight(opt) => self.state.highlighted = Some(opt),
                InteractionEvent::SelectFramework(opt) => self.state.selected_framework = Some(opt),
            }
        }
        proof {
            assert(es.take(es.len() as int) =~= es);
            assert(self.pending() =~= Seq::<EventView>::empty());
        }
        let shown = match self.state.selected {
            Some(id) => Some(id),
            None => self.state.pan_to_dependency,
        };
        if let Some(selected) = shown {
            let n = visible_nodes.len();
            let mut present = false;
            for i in 0..n
                invariant
                    n == visible_nodes@.len(),
                    present == exists|k: int| 0 <= k < i && visible_nodes@[k] == selected,
            {
                if visible_nodes[i] == selected {
                    present = true;
                }
            }
            if !present {
                visible_nodes.push(selected);
                proof {
                    assert forall|a: int, b: int| 0 <= a < b < visible_nodes@.len() implies visible_nodes@[a]
                        != visible_nodes@[b] by {
                        if b == n {
                            assert(old(visible_nodes)@[a] != selected);
                        } else {
                            assert(old(visible_nodes)@[a] != old(visible_nodes)@[b]);
                        }
                    }
                    assert forall|id: DependencyId| visible_nodes@.contains(id) == (old(visible_nodes)@.contains(id)
                        || id == selected) by {
                        if old(visible_nodes)@.contains(id) {
                            let k = choose|k: int| 0 <= k < n && old(visible_nodes)@[k] == id;
                            assert(visible_nodes@[k] == id);
                        }
                        if id == selected {
                            assert(visible_nodes@[n as int] == id);
                        }
                        if visible_nodes@.contains(id) {
                            let k = choose|k: int| 0 <= k < n + 1 && visible_nodes@[k] == id;
                            if k < n {
                                assert(old(visible_nodes)@[k] == id);
                            }
                        }
                    }
                }
            }
        }
    }

    pub fn selected_dependency(&self) -> (r: Option<DependencyId>)
        ensures
            match r {
                Some(id) => self.state().selected == Some(id.ix),
                None => self.state().selected is None,
            },
    {
        self.state.selected
    }

    pub fn selected_framework(&self) -> (r: Option<&Framework>)
        ensures
            match r {
                Some(f) => self.state().selected_framework == Some(f@),
                None => self.state().selected_framework is None,
            },
    {
        match &self.state.selected_framework {
            Some(f) => Some(f),
            None => None,
        }
    }

    pub fn highlighted_dependency(&self) -> (r: Option<DependencyId>)
        ensures
            match r {
                Some(id) => self.state().highlighted == Some(id.ix),
                None => self.state().highlighted is None,
            },
    {
        self.state.highlighted
    }

    pub fn panned_dependency(&self) -> (r: Option<DependencyId>)
        ensures
            match r {
                Some(id) => self.state().pan_to_dependency == Some(id.ix),
                None => self.state().pan_to_dependency is None,
            },
    {
        self.state.pan_to_dependency
    }
}

/// The dependency that processing events makes visible: the selected one, or
/// else the one panned to.
pub open spec fn revealed(s: StateView) -> Option<u32> {
    match s.selected {
        Some(id) => Some(id),
        None => s.pan_to_dependency,
    }
}

/// Highlighting a dependency changes only what is highlighted: the selected
/// dependency, the selected framework and the dependency panned to stay.
pub proof fn lemma_highlight_changes_only_highlight(s: StateView, id: u32)
    ensures
        apply_event(s, EventView::Highlight(id)).highlighted == Some(id),
        apply_event(s, EventView::Highlight(id)).selected == s.selected,
        apply_event(s, EventView::Highlight(id)).selected_framework == s.selected_framework,
        apply_event(s, EventView::Highlight(id)).pan_to_dependency == s.pan_to_dependency,
{
}

/// Events without a selection among them neither select nor pan: the
/// selected dependency and the one panned to stay, and so does what is
/// revealed; only a selection makes a dependency visible.
pub proof fn lemma_no_selection_reveals_nothing(s: StateView, es: Seq<EventView>)
    requires
        forall|i: int| 0 <= i < es.len() ==> !(#[trigger] es[i] is Select),
    ensures
        apply_events(s, es).selected == s.selected,
        apply_events(s, es).pan_to_dependency == s.pan_to_dependency,
        revealed(apply_events(s, es)) == revealed(s),
    decreases es.len(),
{
    if es.len() > 0 {
        let d = es.drop_last();
        assert forall|i: int| 0 <= i < d.len() implies !(#[trigger] d[i] is Select) by {
            assert(d[i] == es[i]);
        }
        lemma_no_selection_reveals_nothing(s, d);
        assert(!(es[es.len() - 1] is Select));
    }
}

/// A selection selects the dependency and pans to it, whatever came before.
pub proof fn lemma_select_selects_and_pans(s: StateView, id: u32)
    ensures
        apply_event(s, EventView::Select(id)).selected == Some(id),
        apply_event(s, EventView::Select(id)).pan_to_dependency == Some(id),
        apply_event(s, EventView::Select(id)).highlighted == s.highlighted,
        apply_event(s, EventView::Select(id)).selected_framework == s.selected_framework,
        revealed(apply_event(s, EventView::Select(id))) == Some(id),
{
}

} // verus!
