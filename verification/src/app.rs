use vstd::prelude::*;

use crate::mqtt::{Message, MqttEvent};
use crate::topic::{counts_fit, empty_tree, lemma_row_label, lemma_toggle_keeps_row, lemma_toggle_shows_flipped, lemma_toggled_labels, lemma_toggled_wf, lemma_wf_counts_fit, rows, topic_levels, TopicTree};
pub use crate::topic::{TopicNode, TopicNodeFlat};

verus! {

/// The state of the explorer: the topic tree, how many messages arrived, whether the broker
/// is connected, and which line of the topic listing is selected.
pub struct App {
    pub topic_tree: TopicNode,
    pub message_count: u64,
    pub connected: bool,
    pub selected: usize,
    /// The line that the listing widget was last told to highlight.
    pub list_selection: Option<usize>,
}

/// A key that the explorer reacts to.
#[derive(Clone, Copy, Debug, PartialEq, Eq, Structural)]
pub enum KeyCode {
    Char(char),
    Up,
    Down,
    Enter,
    Esc,
    Other,
}

impl App {
    /// The explorer's invariant: a well-formed tree that has counted every message, and a
    /// selection that can still move down.
    pub open spec fn wf(&self) -> bool {
        &&& self.topic_tree@.wf()
        &&& self.message_count == self.topic_tree.total_count
        &&& self.selected < usize::MAX
    }

    /// An explorer with an empty tree, nothing counted, disconnected, the first line selected.
    pub fn new() -> (app: Self)
        ensures
            app.topic_tree@ == empty_tree(),
            app.message_count == 0,
            !app.connected,
            app.selected == 0,
            app.list_selection is None,
            app.wf(),
    {
        Self {
            topic_tree: TopicNode::new(),
            message_count: 0,
            connected: false,
            selected: 0,
            list_selection: None,
        }
    }

    /// The explorer with the selection one line up, or still on the first line.
    pub open spec fn moved_up(self) -> App {
        let s: usize = if self.selected > 0 {
            (self.selected - 1) as usize
        } else {
            0
        };
        App { selected: s, list_selection: Some(s), ..self }
    }

    /// The explorer with the selection one line down, but not beyond line `max - 1`.
    pub open spec fn moved_down(self, max: usize) -> App {
        let last: usize = if max > 0 {
            (max - 1) as usize
        } else {
            0
        };
        let s: usize = if self.selected + 1 < last {
            (self.selected + 1) as usize
        } else {
            last
        };
        App { selected: s, list_selection: Some(s), ..self }
    }

    /// The topic tree with the topic on the selected line folded or expanded, if there is one.
    pub open spec fn toggled_tree(self) -> TopicTree {
        if self.selected < rows(self.topic_tree@).len() {
            self.topic_tree@.toggled_at(rows(self.topic_tree@)[self.selected as int].path)
        } else {
            self.topic_tree@
        }
    }

    /// Moves the selection one line up, staying on the first line.
    pub fn on_up(&mut self)
        ensures
            *final(self) == old(self).moved_up(),
            old(self).wf() ==> final(self).wf(),
    {
        self.selected = self.selected.saturating_sub(1);
        self.list_selection = Some(self.selected);
    }

    /// Moves the selection one line down, staying within the first `max` lines (on the
    /// first line where `max` is zero).
    pub fn on_down(&mut self, max: usize)
        requires
            old(self).selected < usize::MAX,
        ensures
            *final(self) == old(self).moved_down(max),
            old(self).wf() ==> final(self).wf(),
    {
        let next: usize = self.selected + 1;
        let last: usize = max.saturating_sub(1);
        self.selected = if next < last {
            next
        } else {
            last
        };
        self.list_selection = Some(self.selected);
    }

    /// Folds or expands the selected topic; nothing changes where no topic is on that line.
    pub fn on_enter(&mut self)
        ensures
            final(self).topic_tree@ == old(self).toggled_tree(),
            old(self).selected < rows(old(self).topic_tree@).len() ==> {
                &&& old(self).selected < rows(final(self).topic_tree@).len()
                &&& rows(final(self).topic_tree@)[old(self).selected as int].path == rows(old(self).topic_tree@)[old(self).selected as int].path
                &&& rows(final(self).topic_tree@)[old(self).selected as int].node == rows(old(self).topic_tree@)[old(self).selected as int].node.flipped()
            },
            final(self).selected == old(self).selected,
            final(self).list_selection == old(self).list_selection,
            final(self).message_count == old(self).message_count,
            final(self).connected == old(self).connected,
            old(self).wf() ==> final(self).wf(),
    {
        let mut idx: usize = self.selected;
        self.topic_tree.toggle_expanded(&mut idx);
        proof {
            if old(self).wf() && old(self).selected < rows(old(self).topic_tree@).len() {
                lemma_toggled_wf(old(self).topic_tree@, rows(old(self).topic_tree@)[old(self).selected as int].path);
            }
            if old(self).selected < rows(old(self).topic_tree@).len() {
                lemma_toggle_shows_flipped(old(self).topic_tree@, old(self).selected as int);
            }
        }
    }

    /// Counts `msg` and files it in the topic tree under its topic.
    pub fn on_message(&mut self, msg: Message)
        requires
            old(self).message_count < u64::MAX,
            old(self).topic_tree.total_count < u64::MAX,
            counts_fit(old(self).topic_tree@, topic_levels(msg.topic@)),
        ensures
            old(self).wf() ==> final(self).wf(),
            final(self).message_count == old(self).message_count + 1,
            final(self).topic_tree@ == old(self).topic_tree@.inserted(msg.topic@, msg),
            final(self).selected == old(self).selected,
            final(self).list_selection == old(self).list_selection,
            final(self).connected == old(self).connected,
    {
        self.message_count = self.message_count + 1;
        let topic = msg.topic.clone();
        self.topic_tree.insert(topic.as_str(), msg);
    }

    /// Records that the broker is connected.
    pub fn on_connected(&mut self)
        ensures
            final(self).connected,
            final(self).topic_tree == old(self).topic_tree,
            final(self).message_count == old(self).message_count,
            final(self).selected == old(self).selected,
            final(self).list_selection == old(self).list_selection,
    {
        self.connected = true;
    }

    /// Records that the connection to the broker is lost.
    pub fn on_disconnected(&mut self)
        ensures
            !final(self).connected,
            final(self).topic_tree == old(self).topic_tree,
            final(self).message_count == old(self).message_count,
            final(self).selected == old(self).selected,
            final(self).list_selection == old(self).list_selection,
    {
        self.connected = false;
    }

    /// The topic on the selected line of the listing, if there is one.
    pub fn selected_node(&self) -> (r: Option<&TopicNode>)
        ensures
            self.selected < rows(self.topic_tree@).len() ==> (r matches Some(n) && n@ == rows(self.topic_tree@)[self.selected as int].node),
            self.selected >= rows(self.topic_tree@).len() ==> r is None,
    {
        let mut idx: usize = self.selected;
        self.topic_tree.get_node_at(&mut idx)
    }
}

/// Reacts to a key: `q` asks to quit (the returned `true`), Up or `k` and Down or `j` move
/// the selection within the listed lines, Enter folds or expands the selected topic; every
/// other key changes nothing.
pub fn handle_key_event(key: KeyCode, app: &mut App) -> (quit: bool)
    requires
        key == KeyCode::Down || key == KeyCode::Char('j') ==> old(app).selected < usize::MAX,
        rows(old(app).topic_tree@).len() <= usize::MAX,
    ensures
        old(app).wf() ==> final(app).wf(),
        old(app).selected < usize::MAX ==> final(app).selected < usize::MAX,
        quit == (key == KeyCode::Char('q')),
        key == KeyCode::Up || key == KeyCode::Char('k') ==> *final(app) == old(app).moved_up(),
        key == KeyCode::Down || key == KeyCode::Char('j') ==> *final(app) == old(app).moved_down(rows(old(app).topic_tree@).len() as usize),
        key == KeyCode::Enter ==> final(app).topic_tree@ == old(app).toggled_tree() && final(app).selected == old(app).selected
            && final(app).list_selection == old(app).list_selection && final(app).message_count == old(app).message_count
            && final(app).connected == old(app).connected,
        !(key == KeyCode::Up || key == KeyCode::Char('k') || key == KeyCode::Down || key == KeyCode::Char('j')
            || key == KeyCode::Enter) ==> *final(app) == *old(app),
{
    let item_len: usize = app.topic_tree.visible_count();
    match key {
        KeyCode::Char('q') => {
            return true;
        },
        KeyCode::Up => app.on_up(),
        KeyCode::Down => app.on_down(item_len),
        KeyCode::Enter => app.on_enter(),
        KeyCode::Char('j') => app.on_down(item_len),
        KeyCode::Char('k') => app.on_up(),
        _ => {},
    }
    false
}

/// Reacts to the broker: records whether it is connected and files every published message.
pub fn handle_mqtt_event(evt: MqttEvent, app: &mut App)
    requires
        evt matches MqttEvent::Publish(m) ==> old(app).message_count < u64::MAX
            && old(app).topic_tree.total_count < u64::MAX
            && counts_fit(old(app).topic_tree@, topic_levels(m.topic@)),
    ensures
        old(app).wf() ==> final(app).wf(),
        match evt {
            MqttEvent::Connected => *final(app) == App { connected: true, ..*old(app) },
            MqttEvent::Disconnected => *final(app) == App { connected: false, ..*old(app) },
            MqttEvent::Publish(msg) => final(app).topic_tree@ == old(app).topic_tree@.inserted(msg.topic@, msg)
                && final(app).message_count == old(app).message_count + 1
                && final(app).connected == old(app).connected && final(app).selected == old(app).selected
                && final(app).list_selection == old(app).list_selection,
        },
{
    match evt {
        MqttEvent::Connected => app.on_connected(),
        MqttEvent::Disconnected => app.on_disconnected(),
        MqttEvent::Publish(msg) => app.on_message(msg),
    }
}

/// Moving the selection keeps it on a listed line: down stays below `max` (on the first line
/// when nothing is listed), up never passes the first line.
pub proof fn lemma_selection_in_bounds(app: App, max: usize)
    ensures
        max > 0 ==> app.moved_down(max).selected < max,
        max == 0 ==> app.moved_down(max).selected == 0,
        app.moved_down(max).selected <= app.selected + 1,
        app.moved_up().selected <= app.selected,
        app.selected > 0 ==> app.moved_up().selected == app.selected - 1,
{
}

/// An explorer in its invariant can take any message as long as its count has room: every
/// level on the way has a count no larger than the root's.
pub proof fn lemma_ready_for_message(app: App, topic: Seq<char>)
    requires
        app.wf(),
        app.message_count < u64::MAX,
    ensures
        app.topic_tree.total_count < u64::MAX,
        counts_fit(app.topic_tree@, topic_levels(topic)),
{
    lemma_wf_counts_fit(app.topic_tree@, topic_levels(topic));
}

/// Enter acts on the selected line: where a topic is listed there, the same line afterwards
/// lists the same topic (same path, same name) with its expanded flag flipped and nothing else
/// about it changed; where none is, the tree stays as it was.
pub proof fn lemma_enter_flips_selected_line(app: App)
    ensures
        app.selected < rows(app.topic_tree@).len() ==> {
            &&& app.selected < rows(app.toggled_tree()).len()
            &&& rows(app.toggled_tree())[app.selected as int].path == rows(app.topic_tree@)[app.selected as int].path
            &&& rows(app.toggled_tree())[app.selected as int].label == rows(app.topic_tree@)[app.selected as int].label
            &&& rows(app.toggled_tree())[app.selected as int].node.expanded != rows(app.topic_tree@)[app.selected as int].node.expanded
            &&& rows(app.toggled_tree())[app.selected as int].node.children == rows(app.topic_tree@)[app.selected as int].node.children
            &&& rows(app.toggled_tree())[app.selected as int].node.messages == rows(app.topic_tree@)[app.selected as int].node.messages
            &&& rows(app.toggled_tree())[app.selected as int].node.total_count == rows(app.topic_tree@)[app.selected as int].node.total_count
        },
        app.selected >= rows(app.topic_tree@).len() ==> app.toggled_tree() == app.topic_tree@,
{
    if app.selected < rows(app.topic_tree@).len() {
        let t = app.topic_tree@;
        let n = app.selected as int;
        lemma_toggle_shows_flipped(t, n);
        lemma_row_label(t, n);
        lemma_row_label(t.toggled_at(rows(t)[n].path), n);
        lemma_toggle_keeps_row(t, n);
        lemma_toggled_labels(t, rows(t)[n].path, rows(t)[n].path);
    }
}

} // verus!
