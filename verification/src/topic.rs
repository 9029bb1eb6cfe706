use std::collections::VecDeque;
use vstd::prelude::*;

use crate::mqtt::Message;
use crate::text::{chars_less, chars_of, lex_lt, split_on, split_str};
use crate::text::{lemma_lex_lt_irreflexive, lemma_lex_lt_total, lemma_lex_lt_transitive};

verus! {

/// How many messages a topic keeps; older ones are dropped first.
pub const MAX_MESSAGES: usize = 200;

/// The separator between the levels of a topic name.
pub const TOPIC_SEPARATOR: char = '/';

/// The abstract state of a topic tree: its retained messages, its sub-topics in key order,
/// how many messages passed through it, and whether it is unfolded in the listing.
pub struct TopicTree {
    pub messages: Seq<Message>,
    pub children: Seq<(Seq<char>, TopicTree)>,
    pub total_count: nat,
    pub expanded: bool,
}

/// One line of the flattened topic listing, as the user interface shows it.
pub struct TopicNodeFlat {
    pub depth: usize,
    pub label: String,
    pub has_children: bool,
    pub expanded: bool,
    pub message_count: u64,
    pub sub_topic_count: u64,
}

/// The value that every listed line carries as its sub-topic count.
pub const LISTED_SUB_TOPIC_COUNT: u64 = 42;

/// A level of the topic hierarchy, with the messages received on it and its sub-topics,
/// which are kept in increasing order of their names.
pub struct TopicNode {
    pub messages: VecDeque<Message>,
    pub children: Vec<(String, TopicNode)>,
    pub total_count: u64,
    pub expanded: bool,
}

pub open spec fn empty_tree() -> TopicTree {
    TopicTree { messages: Seq::empty(), children: Seq::empty(), total_count: 0, expanded: false }
}

/// The abstract tree that a node stands for.
pub open spec fn node_tree(n: TopicNode) -> TopicTree
    decreases n,
{
    TopicTree {
        messages: n.messages@,
        children: Seq::new(
            n.children@.len(),
            |i: int|
                if 0 <= i < n.children@.len() {
                    (n.children@[i].0@, node_tree(n.children@[i].1))
                } else {
                    (Seq::empty(), empty_tree())
                },
        ),
        total_count: n.total_count as nat,
        expanded: n.expanded,
    }
}

impl View for TopicNode {
    type V = TopicTree;

    open spec fn view(&self) -> TopicTree {
        node_tree(*self)
    }
}

/// The topic levels that a topic name stands for, as `str::split('/')` yields them.
pub open spec fn topic_levels(topic: Seq<char>) -> Seq<Seq<char>> {
    split_on(topic, TOPIC_SEPARATOR)
}

/// The names of the sub-topics are strictly increasing, so no name occurs twice.
pub open spec fn keys_sorted(cs: Seq<(Seq<char>, TopicTree)>) -> bool {
    forall|i: int, j: int| 0 <= i < j < cs.len() ==> lex_lt(#[trigger] cs[i].0, #[trigger] cs[j].0)
}

/// The names are in increasing order at every level of the tree.
pub open spec fn sorted_tree(t: TopicTree) -> bool
    decreases t,
{
    &&& keys_sorted(t.children)
    &&& forall|i: int| 0 <= i < t.children.len() ==> sorted_tree(#[trigger] t.children[i].1)
}

/// Every level on the way down `levels` that exists can count one more message.
pub open spec fn counts_fit(t: TopicTree, levels: Seq<Seq<char>>) -> bool
    decreases levels.len(),
{
    levels.len() == 0 || (t.child(levels[0]).total_count < u64::MAX && counts_fit(t.child(levels[0]), levels.drop_first()))
}

/// The sum of the message counts of the sub-topics.
pub open spec fn children_total(cs: Seq<(Seq<char>, TopicTree)>) -> nat
    decreases cs.len(),
{
    if cs.len() == 0 {
        0
    } else {
        children_total(cs.drop_last()) + cs.last().1.total_count
    }
}

/// Number of leading sub-topics whose names come before `k`: where `k` stands or would stand.
pub open spec fn lower_bound(cs: Seq<(Seq<char>, TopicTree)>, k: Seq<char>) -> nat
    decreases cs.len(),
{
    if cs.len() == 0 {
        0
    } else if lex_lt(cs[0].0, k) {
        1 + lower_bound(cs.drop_first(), k)
    } else {
        0
    }
}

/// A sequence of messages with the oldest dropped beyond `MAX_MESSAGES`.
pub open spec fn keep_newest(s: Seq<Message>) -> Seq<Message> {
    if s.len() > MAX_MESSAGES {
        s.drop_first()
    } else {
        s
    }
}

impl TopicTree {
    /// Well-formedness: names in increasing order, at most `MAX_MESSAGES` messages kept, and a
    /// message count no smaller than what the sub-topics and the kept messages account for.
    pub open spec fn wf(self) -> bool
        decreases self,
    {
        &&& keys_sorted(self.children)
        &&& self.messages.len() <= MAX_MESSAGES
        &&& children_total(self.children) + self.messages.len() <= self.total_count
        &&& forall|i: int| 0 <= i < self.children.len() ==> (#[trigger] self.children[i]).1.wf()
    }

    /// Whether a sub-topic has the name `k`.
    pub open spec fn has_child(self, k: Seq<char>) -> bool {
        let p = lower_bound(self.children, k);
        p < self.children.len() && self.children[p as int].0 == k
    }

    /// The sub-topic named `k`, or an empty tree where there is none.
    pub open spec fn child(self, k: Seq<char>) -> TopicTree {
        if self.has_child(k) {
            self.children[lower_bound(self.children, k) as int].1
        } else {
            empty_tree()
        }
    }

    /// The tree with its sub-topic `k` set to `c`, added in key order where it was missing.
    pub open spec fn with_child(self, k: Seq<char>, c: TopicTree) -> TopicTree {
        let p = lower_bound(self.children, k) as int;
        TopicTree {
            children: if self.has_child(k) {
                self.children.update(p, (k, c))
            } else {
                self.children.insert(p, (k, c))
            },
            ..self
        }
    }

    /// The tree with one more message counted.
    pub open spec fn bumped(self) -> TopicTree {
        TopicTree { total_count: self.total_count + 1, ..self }
    }

    /// The tree with `msg` kept as its newest message, the oldest dropped beyond `MAX_MESSAGES`.
    pub open spec fn with_message(self, msg: Message) -> TopicTree {
        TopicTree { messages: keep_newest(self.messages.push(msg)), ..self }
    }

    /// Hands `msg` down the levels `levels`: each level on the way is created where missing and
    /// counts the message; the last one keeps it.
    pub open spec fn delivered(self, levels: Seq<Seq<char>>, msg: Message) -> TopicTree
        decreases levels.len(),
    {
        if levels.len() == 0 {
            self.with_message(msg)
        } else {
            let k = levels[0];
            self.with_child(k, self.child(k).bumped().delivered(levels.drop_first(), msg))
        }
    }

    /// The tree folded if it was expanded and expanded if it was folded.
    pub open spec fn flipped(self) -> TopicTree {
        TopicTree { expanded: !self.expanded, ..self }
    }

    /// The tree with the topic at `path` folded if it was expanded and expanded if it was folded.
    pub open spec fn toggled_at(self, path: Seq<int>) -> TopicTree
        decreases path.len(),
    {
        if path.len() == 0 {
            self.flipped()
        } else if 0 <= path[0] < self.children.len() {
            let j = path[0];
            TopicTree {
                children: self.children.update(j, (self.children[j].0, self.children[j].1.toggled_at(path.drop_first()))),
                ..self
            }
        } else {
            self
        }
    }

    /// The sub-topic reached by following the indices in `path` (the tree itself for an empty path).
    pub open spec fn node_at(self, path: Seq<int>) -> TopicTree
        decreases path.len(),
    {
        if path.len() == 0 {
            self
        } else if 0 <= path[0] < self.children.len() {
            self.children[path[0]].1.node_at(path.drop_first())
        } else {
            empty_tree()
        }
    }

    /// The sub-topic reached by following the names in `levels`, if every one exists.
    pub open spec fn lookup(self, levels: Seq<Seq<char>>) -> Option<TopicTree>
        decreases levels.len(),
    {
        if levels.len() == 0 {
            Some(self)
        } else if self.has_child(levels[0]) {
            self.child(levels[0]).lookup(levels.drop_first())
        } else {
            None
        }
    }

    /// The tree after a message on `topic` arrived at its root.
    pub open spec fn inserted(self, topic: Seq<char>, msg: Message) -> TopicTree {
        self.bumped().delivered(topic_levels(topic), msg)
    }
}

proof fn lemma_lower_bound_bounds(cs: Seq<(Seq<char>, TopicTree)>, k: Seq<char>)
    ensures
        lower_bound(cs, k) <= cs.len(),
        forall|j: int| 0 <= j < lower_bound(cs, k) ==> lex_lt(#[trigger] cs[j].0, k),
        lower_bound(cs, k) < cs.len() ==> !lex_lt(cs[lower_bound(cs, k) as int].0, k),
    decreases cs.len(),
{
    if cs.len() > 0 && lex_lt(cs[0].0, k) {
        lemma_lower_bound_bounds(cs.drop_first(), k);
        assert forall|j: int| 0 <= j < lower_bound(cs, k) implies lex_lt(#[trigger] cs[j].0, k) by {
            if j > 0 {
                assert(cs[j] == cs.drop_first()[j - 1]);
            }
        }
    }
}

proof fn lemma_lower_bound_at(cs: Seq<(Seq<char>, TopicTree)>, k: Seq<char>, p: int)
    requires
        0 <= p <= cs.len(),
        forall|j: int| 0 <= j < p ==> lex_lt(#[trigger] cs[j].0, k),
        p < cs.len() ==> !lex_lt(cs[p].0, k),
    ensures
        lower_bound(cs, k) == p,
    decreases cs.len(),
{
    if cs.len() > 0 && p > 0 {
        assert(lex_lt(cs[0].0, k));
        assert forall|j: int| 0 <= j < p - 1 implies lex_lt(#[trigger] cs.drop_first()[j].0, k) by {
            assert(cs.drop_first()[j] == cs[j + 1]);
        }
        lemma_lower_bound_at(cs.drop_first(), k, p - 1);
    }
}

/// In sorted children, every name from the insertion point of a missing `k` on comes after `k`.
proof fn lemma_missing_key_after(cs: Seq<(Seq<char>, TopicTree)>, k: Seq<char>)
    requires
        keys_sorted(cs),
        !(lower_bound(cs, k) < cs.len() && cs[lower_bound(cs, k) as int].0 == k),
    ensures
        forall|j: int| lower_bound(cs, k) <= j < cs.len() ==> lex_lt(k, #[trigger] cs[j].0),
{
    lemma_lower_bound_bounds(cs, k);
    let p = lower_bound(cs, k) as int;
    if p < cs.len() {
        lemma_lex_lt_total(cs[p].0, k);
        assert forall|j: int| p <= j < cs.len() implies lex_lt(k, #[trigger] cs[j].0) by {
            if j > p {
                lemma_lex_lt_transitive(k, cs[p].0, cs[j].0);
            }
        }
    }
}

proof fn lemma_children_total_update(cs: Seq<(Seq<char>, TopicTree)>, i: int, x: (Seq<char>, TopicTree))
    requires
        0 <= i < cs.len(),
    ensures
        children_total(cs.update(i, x)) + cs[i].1.total_count == children_total(cs) + x.1.total_count,
    decreases cs.len(),
{
    let u = cs.update(i, x);
    if i == cs.len() - 1 {
        assert(u.drop_last() =~= cs.drop_last());
    } else {
        assert(u.drop_last() =~= cs.drop_last().update(i, x));
        lemma_children_total_update(cs.drop_last(), i, x);
    }
}

proof fn lemma_children_total_insert(cs: Seq<(Seq<char>, TopicTree)>, i: int, x: (Seq<char>, TopicTree))
    requires
        0 <= i <= cs.len(),
    ensures
        children_total(cs.insert(i, x)) == children_total(cs) + x.1.total_count,
    decreases cs.len(),
{
    let u = cs.insert(i, x);
    if i == cs.len() {
        assert(u.drop_last() =~= cs);
    } else {
        assert(u.drop_last() =~= cs.drop_last().insert(i, x));
        lemma_children_total_insert(cs.drop_last(), i, x);
    }
}

proof fn lemma_child_within_total(cs: Seq<(Seq<char>, TopicTree)>, i: int)
    requires
        0 <= i < cs.len(),
    ensures
        cs[i].1.total_count <= children_total(cs),
    decreases cs.len(),
{
    if i < cs.len() - 1 {
        assert(cs.drop_last()[i] == cs[i]);
        lemma_child_within_total(cs.drop_last(), i);
    }
}

/// Setting a sub-topic keeps the names in increasing order.
proof fn lemma_with_child_sorted(t: TopicTree, k: Seq<char>, c: TopicTree)
    requires
        keys_sorted(t.children),
    ensures
        keys_sorted(t.with_child(k, c).children),
{
    lemma_lower_bound_bounds(t.children, k);
    let p = lower_bound(t.children, k) as int;
    let cs = t.children;
    let n = t.with_child(k, c).children;
    if t.has_child(k) {
        assert forall|i: int, j: int| 0 <= i < j < n.len() implies lex_lt(#[trigger] n[i].0, #[trigger] n[j].0) by {
            assert(n[i].0 == cs[i].0);
            assert(n[j].0 == cs[j].0);
        }
    } else {
        lemma_missing_key_after(cs, k);
        assert forall|i: int, j: int| 0 <= i < j < n.len() implies lex_lt(#[trigger] n[i].0, #[trigger] n[j].0) by {
            if j < p {
                assert(n[i] == cs[i] && n[j] == cs[j]);
            } else if j == p {
                assert(n[i] == cs[i]);
            } else if i < p {
                assert(n[i] == cs[i] && n[j] == cs[j - 1]);
                lemma_lex_lt_transitive(cs[i].0, k, cs[j - 1].0);
            } else if i == p {
                assert(n[j] == cs[j - 1]);
            } else {
                assert(n[i] == cs[i - 1] && n[j] == cs[j - 1]);
            }
        }
    }
}

/// In sorted children, the name at position `j` is found at `j`.
proof fn lemma_has_child_at(cs: Seq<(Seq<char>, TopicTree)>, k: Seq<char>, j: int)
    requires
        keys_sorted(cs),
        0 <= j < cs.len(),
        cs[j].0 == k,
    ensures
        lower_bound(cs, k) == j,
{
    lemma_lex_lt_irreflexive(k);
    assert forall|i: int| 0 <= i < j implies lex_lt(#[trigger] cs[i].0, k) by {
        assert(lex_lt(cs[i].0, cs[j].0));
    }
    lemma_lower_bound_at(cs, k, j);
}

/// Setting the sub-topic `k` leaves every other sub-topic, present or missing, as it was.
proof fn lemma_with_child_other(t: TopicTree, k: Seq<char>, c: TopicTree, k2: Seq<char>)
    requires
        keys_sorted(t.children),
        k2 != k,
    ensures
        t.with_child(k, c).has_child(k2) == t.has_child(k2),
        t.has_child(k2) ==> t.with_child(k, c).child(k2) == t.child(k2),
{
    let cs = t.children;
    let w = t.with_child(k, c);
    let n = w.children;
    lemma_with_child_sorted(t, k, c);
    lemma_lower_bound_bounds(cs, k);
    lemma_lower_bound_bounds(n, k2);
    lemma_lower_bound_bounds(cs, k2);
    let p = lower_bound(cs, k) as int;
    if t.has_child(k2) {
        let q = lower_bound(cs, k2) as int;
        let q2 = if t.has_child(k) || q < p { q } else { q + 1 };
        assert(n[q2] == cs[q]);
        lemma_has_child_at(n, k2, q2);
    }
    if w.has_child(k2) {
        let q2 = lower_bound(n, k2) as int;
        let q = if t.has_child(k) || q2 < p { q2 } else { q2 - 1 };
        assert(n[q2] == cs[q]);
        lemma_has_child_at(cs, k2, q);
    }
}

/// Setting a well-formed sub-topic keeps the tree well-formed where the counts still add up.
proof fn lemma_with_child(t: TopicTree, k: Seq<char>, c: TopicTree)
    requires
        t.wf(),
        c.wf(),
    ensures
        children_total(t.with_child(k, c).children) + t.child(k).total_count == children_total(t.children) + c.total_count,
        keys_sorted(t.with_child(k, c).children),
        forall|i: int| 0 <= i < t.with_child(k, c).children.len() ==> (#[trigger] t.with_child(k, c).children[i]).1.wf(),
        t.child(k).wf(),
        t.child(k).total_count <= children_total(t.children),
{
    lemma_lower_bound_bounds(t.children, k);
    let p = lower_bound(t.children, k) as int;
    let cs = t.children;
    let n = t.with_child(k, c).children;
    lemma_with_child_sorted(t, k, c);
    if t.has_child(k) {
        lemma_children_total_update(cs, p, (k, c));
        lemma_child_within_total(cs, p);
        assert(t.children[p].1.wf());
        assert forall|i: int| 0 <= i < n.len() implies (#[trigger] n[i]).1.wf() by {
            if i != p {
                assert(n[i] == cs[i]);
            }
        }
    } else {
        lemma_children_total_insert(cs, p, (k, c));
        assert forall|i: int| 0 <= i < n.len() implies (#[trigger] n[i]).1.wf() by {
            if i < p {
                assert(n[i] == cs[i]);
            } else if i > p {
                assert(n[i] == cs[i - 1]);
            }
        }
    }
}

/// Handing a message down keeps a tree well-formed and leaves its own count as it was,
/// provided its count already covers the message.
pub proof fn lemma_delivered_wf(t: TopicTree, levels: Seq<Seq<char>>, msg: Message)
    requires
        t.wf(),
        children_total(t.children) + t.messages.len() < t.total_count,
    ensures
        t.delivered(levels, msg).wf(),
        t.delivered(levels, msg).total_count == t.total_count,
    decreases levels.len(),
{
    if levels.len() > 0 {
        let k = levels[0];
        lemma_with_child(t, k, empty_tree());
        let c = t.child(k).bumped();
        assert(c.wf());
        lemma_delivered_wf(c, levels.drop_first(), msg);
        lemma_with_child(t, k, c.delivered(levels.drop_first(), msg));
    }
}

/// One line of the topic listing: a visible topic, its name, and the indices of the
/// sub-topics that lead to it from the listed tree.
pub struct Row {
    pub label: Seq<char>,
    pub path: Seq<int>,
    pub node: TopicTree,
}

/// The row of sub-topic `j` followed, where it is expanded, by the rows of its own sub-topics.
pub open spec fn entry_rows(cs: Seq<(Seq<char>, TopicTree)>, j: int) -> Seq<Row>
    decreases cs, j,
{
    if 0 <= j < cs.len() {
        seq![Row { label: cs[j].0, path: seq![j], node: cs[j].1 }]
            + if cs[j].1.expanded {
                rows(cs[j].1).map_values(|r: Row| Row { path: seq![j] + r.path, ..r })
            } else {
                Seq::empty()
            }
    } else {
        Seq::empty()
    }
}

/// The rows of the first `i` sub-topics, in order.
pub open spec fn rows_upto(cs: Seq<(Seq<char>, TopicTree)>, i: int) -> Seq<Row>
    decreases cs, i,
{
    if i <= 0 || i > cs.len() {
        Seq::empty()
    } else {
        rows_upto(cs, i - 1) + entry_rows(cs, i - 1)
    }
}

/// The visible topics below `t`, in listing order: each sub-topic in name order, followed by
/// the listing of its own sub-topics where it is expanded.
pub open spec fn rows(t: TopicTree) -> Seq<Row>
    decreases t, 0int,
{
    rows_upto(t.children, t.children.len() as int)
}

/// The texts of a sequence of strings.
pub open spec fn strings_view(v: Seq<String>) -> Seq<Seq<char>> {
    Seq::new(v.len(), |i: int| v[i]@)
}

impl TopicNode {
    /// An empty topic: no messages, no sub-topics, folded.
    pub fn new() -> (n: Self)
        ensures
            n@ == empty_tree(),
            n@.wf(),
    {
        let n = TopicNode { messages: VecDeque::new(), children: Vec::new(), total_count: 0, expanded: false };
        assert(n@.children =~= Seq::<(Seq<char>, TopicTree)>::empty());
        n
    }

    /// Files `msg` under `topic`: this node and every level of the topic on the way count it,
    /// missing levels are created in name order, and the last level keeps it as its newest
    /// message, dropping its oldest beyond `MAX_MESSAGES`.
    pub fn insert(&mut self, topic: &str, msg: Message)
        requires
            old(self).total_count < u64::MAX,
            counts_fit(old(self)@, topic_levels(topic@)),
        ensures
            final(self)@ == old(self)@.inserted(topic@, msg),
            final(self).total_count == old(self).total_count + 1,
            sorted_tree(old(self)@) ==> sorted_tree(final(self)@),
            old(self)@.wf() ==> final(self)@.wf(),
    {
        self.total_count = self.total_count + 1;
        let levels = split_str(topic, TOPIC_SEPARATOR);
        proof {
            assert(strings_view(levels@) =~= topic_levels(topic@));
            assert(strings_view(levels@).skip(0) =~= strings_view(levels@));
            assert(self@ == old(self)@.bumped());
        }
        self.deliver(&levels, 0, msg);
        proof {
            if old(self)@.wf() {
                lemma_delivered_wf(old(self)@.bumped(), topic_levels(topic@), msg);
            }
            if sorted_tree(old(self)@) {
                assert(sorted_tree(old(self)@.bumped()));
                lemma_delivered_sorted(old(self)@.bumped(), topic_levels(topic@), msg);
            }
        }
    }

    fn deliver(&mut self, levels: &Vec<String>, i: usize, msg: Message)
        requires
            i <= levels.len(),
            counts_fit(old(self)@, strings_view(levels@).skip(i as int)),
        ensures
            final(self)@ == old(self)@.delivered(strings_view(levels@).skip(i as int), msg),
        decreases levels.len() - i,
    {
        let ghost old_tree = self@;
        let ghost rest = strings_view(levels@).skip(i as int);
        if i == levels.len() {
            self.messages.push_back(msg);
            if self.messages.len() > MAX_MESSAGES {
                self.messages.pop_front();
            }
            assert(self@.children =~= old_tree.children);
            assert(self@.messages =~= old_tree.with_message(msg).messages);
        } else {
            let ghost k = levels@[i as int]@;
            assert(rest[0] == k);
            assert(rest.drop_first() =~= strings_view(levels@).skip(i + 1));
            let key = chars_of(levels[i].as_str());
            let mut p: usize = 0;
            while p < self.children.len() && chars_less(&chars_of(self.children[p].0.as_str()), &key)
                invariant
                    self@ == old_tree,
                    key@ == k,
                    p <= self.children.len(),
                    forall|j: int| 0 <= j < p ==> lex_lt(#[trigger] old_tree.children[j].0, k),
                decreases self.children.len() - p,
            {
                p = p + 1;
            }
            proof {
                lemma_lower_bound_at(old_tree.children, k, p as int);
            }
            if p == self.children.len() || !(self.children[p].0 == levels[i]) {
                let fresh = TopicNode::new();
                self.children.insert(p, (levels[i].clone(), fresh));
                assert(self@.children =~= old_tree.children.insert(p as int, (k, empty_tree())));
            }
            let ghost mid = self@;
            assert(mid.children[p as int] == (k, old_tree.child(k)));
            assert(mid.children.len() > p);
            assert(self.children@[p as int].1@ == mid.children[p as int].1);
            assert(self.children@[p as int].1.total_count < u64::MAX);
            let child = &mut self.children[p].1;
            child.total_count = child.total_count + 1;
            assert(child@ == old_tree.child(k).bumped());
            assert(child@.children == old_tree.child(k).children);
            assert(counts_fit(child@, rest.drop_first()) == counts_fit(old_tree.child(k), rest.drop_first()));
            child.deliver(levels, i + 1, msg);
            let ghost delivered_child = old_tree.child(k).bumped().delivered(rest.drop_first(), msg);
            assert(self@.children =~= mid.children.update(p as int, (k, delivered_child)));
            proof {
                if old_tree.has_child(k) {
                    assert(self@.children =~= old_tree.children.update(p as int, (k, delivered_child)));
                } else {
                    assert(self@.children =~= old_tree.children.insert(p as int, (k, delivered_child)));
                }
            }
        }
    }
}

/// The rows of fewer sub-topics are a prefix of the rows of more.
proof fn lemma_rows_upto_prefix(cs: Seq<(Seq<char>, TopicTree)>, j: int, k: int)
    requires
        0 <= j <= k <= cs.len(),
    ensures
        rows_upto(cs, j).len() <= rows_upto(cs, k).len(),
        forall|x: int| 0 <= x < rows_upto(cs, j).len() ==> #[trigger] rows_upto(cs, k)[x] == rows_upto(cs, j)[x],
    decreases k,
{
    if j < k {
        lemma_rows_upto_prefix(cs, j, k - 1);
    }
}

impl TopicNode {
    /// How many topics the listing shows: every sub-topic, and the visible topics below each
    /// expanded one.
    pub fn visible_count(&self) -> (n: usize)
        requires
            rows(self@).len() <= usize::MAX,
        ensures
            n == rows(self@).len(),
        decreases self,
    {
        let mut sum: usize = 0;
        let mut i: usize = 0;
        let ghost cs = self@.children;
        while i < self.children.len()
            invariant
                cs == self@.children,
                i <= self.children.len(),
                rows(self@).len() <= usize::MAX,
                sum == rows_upto(cs, i as int).len(),
            decreases self.children.len() - i,
        {
            proof {
                lemma_rows_upto_prefix(cs, i + 1, cs.len() as int);
            }
            assert(cs[i as int] == (self.children@[i as int].0@, self.children@[i as int].1@));
            assert(rows(self@) == rows_upto(cs, cs.len() as int));
            assert(rows_upto(cs, i + 1) == rows_upto(cs, i as int) + entry_rows(cs, i as int));
            let child = &self.children[i].1;
            let below: usize = if child.expanded {
                child.visible_count()
            } else {
                0
            };
            sum = sum + 1 + below;
            i = i + 1;
        }
        sum
    }
}

/// `f` is the listing line for row `r` of a listing that starts at indentation `base`.
pub open spec fn describes(f: TopicNodeFlat, r: Row, base: int) -> bool {
    &&& f.depth == base + r.path.len() - 1
    &&& f.label@ == r.label
    &&& f.has_children == (r.node.children.len() > 0)
    &&& f.expanded == r.node.expanded
    &&& f.message_count == r.node.total_count
    &&& f.sub_topic_count == LISTED_SUB_TOPIC_COUNT
}

/// The indentation of every expanded row below `t`, plus one, fits in a `usize` when the
/// listing starts at `base`.
pub open spec fn depths_fit(t: TopicTree, base: int) -> bool {
    forall|x: int| 0 <= x < rows(t).len() && (#[trigger] rows(t)[x]).node.expanded ==> base + rows(t)[x].path.len() <= usize::MAX
}

impl TopicNode {
    /// Appends to `target` one line per visible topic below this node, in listing order,
    /// the topics right below it indented by `depth`.
    pub fn flatten(&self, target: &mut Vec<TopicNodeFlat>, depth: usize)
        requires
            depths_fit(self@, depth as int),
        ensures
            final(target)@.len() == old(target)@.len() + rows(self@).len(),
            forall|x: int| 0 <= x < old(target)@.len() ==> #[trigger] final(target)@[x] == old(target)@[x],
            forall|x: int| 0 <= x < rows(self@).len() ==> describes(#[trigger] final(target)@[old(target)@.len() + x], rows(self@)[x], depth as int),
        decreases self,
    {
        let ghost start = target@.len();
        let ghost initial = target@;
        let ghost cs = self@.children;
        let mut i: usize = 0;
        while i < self.children.len()
            invariant
                cs == self@.children,
                i <= self.children.len(),
                depths_fit(self@, depth as int),
                target@.len() == start + rows_upto(cs, i as int).len(),
                start == initial.len(),
                forall|x: int| 0 <= x < start ==> #[trigger] target@[x] == initial[x],
                forall|x: int| 0 <= x < rows_upto(cs, i as int).len() ==> describes(#[trigger] target@[start + x], rows_upto(cs, i as int)[x], depth as int),
            decreases self.children.len() - i,
        {
            proof {
                lemma_rows_upto_prefix(cs, i + 1, cs.len() as int);
            }
            assert(cs[i as int] == (self.children@[i as int].0@, self.children@[i as int].1@));
            assert(rows(self@) == rows_upto(cs, cs.len() as int));
            let ghost before = rows_upto(cs, i as int);
            let ghost entry = entry_rows(cs, i as int);
            assert(rows_upto(cs, i + 1) == before + entry);
            assert(rows(self@)[before.len() as int] == entry[0]);
            let ghost mid_len = target@.len();
            let key = &self.children[i].0;
            let val = &self.children[i].1;
            target.push(TopicNodeFlat {
                depth,
                label: key.clone(),
                has_children: !val.children.is_empty(),
                expanded: val.expanded,
                message_count: val.total_count,
                sub_topic_count: LISTED_SUB_TOPIC_COUNT,
            });
            assert(describes(target@[start + before.len() as int], entry[0], depth as int));
            let ghost pushed = target@;
            if val.expanded {
                assert forall|y: int| 0 <= y < rows(val@).len() && (#[trigger] rows(val@)[y]).node.expanded implies depth + 1 + rows(val@)[y].path.len() <= usize::MAX by {
                    assert(rows(self@)[before.len() + 1 + y] == entry[1 + y]);
                    assert(entry[1 + y] == Row { path: seq![i as int] + rows(val@)[y].path, ..rows(val@)[y] });
                }
                val.flatten(target, depth + 1);
                assert forall|x: int| 0 <= x < rows_upto(cs, i + 1).len() implies describes(#[trigger] target@[start + x], rows_upto(cs, i + 1)[x], depth as int) by {
                    if x < before.len() {
                        assert(target@[start + x] == pushed[start + x]);
                    } else if x == before.len() {
                        assert(target@[start + x] == pushed[start + x]);
                    } else {
                        let y = x - before.len() - 1;
                        assert(target@[start + x] == target@[pushed.len() + y]);
                        assert(entry[1 + y] == Row { path: seq![i as int] + rows(val@)[y].path, ..rows(val@)[y] });
                    }
                }
            } else {
                assert(entry.len() == 1);
            }
            i = i + 1;
        }
    }
}

impl TopicNode {
    /// The topic shown on line `*position` of the listing below this node. On success
    /// `*position` ends at zero; otherwise it is lowered by the number of listed lines.
    pub fn get_node_at(&self, position: &mut usize) -> (r: Option<&TopicNode>)
        ensures
            *old(position) < rows(self@).len() ==> (r matches Some(n) && n@ == rows(self@)[*old(position) as int].node) && *final(position) == 0,
            *old(position) >= rows(self@).len() ==> r is None && *final(position) == *old(position) - rows(self@).len(),
        decreases self,
    {
        let ghost orig = *position;
        let ghost cs = self@.children;
        let mut i: usize = 0;
        while i < self.children.len()
            invariant
                cs == self@.children,
                i <= self.children.len(),
                orig == *old(position),
                orig >= rows_upto(cs, i as int).len(),
                *position == orig - rows_upto(cs, i as int).len(),
            decreases self.children.len() - i,
        {
            proof {
                lemma_rows_upto_prefix(cs, i + 1, cs.len() as int);
            }
            assert(cs[i as int] == (self.children@[i as int].0@, self.children@[i as int].1@));
            assert(rows(self@) == rows_upto(cs, cs.len() as int));
            let ghost before = rows_upto(cs, i as int);
            let ghost entry = entry_rows(cs, i as int);
            assert(rows_upto(cs, i + 1) == before + entry);
            let val = &self.children[i].1;
            if *position == 0 {
                assert(orig < rows(self@).len());
                assert(rows(self@)[orig as int] == entry[0]);
                return Some(val);
            }
            *position = *position - 1;
            if val.expanded {
                let ghost p = *position;
                if let Some(node) = val.get_node_at(position) {
                    assert(rows(self@)[orig as int] == entry[1 + p]);
                    return Some(node);
                }
            }
            i = i + 1;
        }
        None
    }

    /// Folds or expands the topic on line `*counter` of the listing below this node and
    /// returns `true`, with `*counter` at zero; where there is no such line, changes nothing,
    /// lowers `*counter` by the number of listed lines and returns `false`.
    pub fn toggle_expanded(&mut self, counter: &mut usize) -> (found: bool)
        ensures
            *old(counter) < rows(old(self)@).len() ==> found && *final(counter) == 0
                && final(self)@ == old(self)@.toggled_at(rows(old(self)@)[*old(counter) as int].path),
            *old(counter) >= rows(old(self)@).len() ==> !found && final(self)@ == old(self)@
                && *final(counter) == *old(counter) - rows(old(self)@).len(),
        decreases old(self)@,
    {
        let ghost orig = *counter;
        let ghost t = self@;
        let ghost cs = self@.children;
        let mut i: usize = 0;
        while i < self.children.len()
            invariant
                cs == t.children,
                self@ == t,
                t == old(self)@,
                i <= self.children.len(),
                orig == *old(counter),
                orig >= rows_upto(cs, i as int).len(),
                *counter == orig - rows_upto(cs, i as int).len(),
            decreases self.children.len() - i,
        {
            proof {
                lemma_rows_upto_prefix(cs, i + 1, cs.len() as int);
            }
            assert(cs[i as int] == (self.children@[i as int].0@, self.children@[i as int].1@));
            assert(rows(t) == rows_upto(cs, cs.len() as int));
            let ghost before = rows_upto(cs, i as int);
            let ghost entry = entry_rows(cs, i as int);
            assert(rows_upto(cs, i + 1) == before + entry);
            let ghost key = self.children@[i as int].0;
            if *counter == 0 {
                let ghost old_val = self.children@[i as int].1;
                let val = &mut self.children[i].1;
                val.expanded = !val.expanded;
                assert(val.children == old_val.children);
                assert(node_tree(*val) == TopicTree { expanded: !old_val@.expanded, ..old_val@ });
                proof {
                    assert(rows(t)[orig as int] == entry[0]);
                    assert(seq![i as int].drop_first() =~= Seq::<int>::empty());
                    assert(self@.children =~= t.children.update(i as int, (key@, t.children[i as int].1.toggled_at(Seq::empty()))));
                }
                return true;
            }
            *counter = *counter - 1;
            if self.children[i].1.expanded {
                let ghost p = *counter;
                let ghost child_before = self.children@[i as int].1@;
                assert(child_before == t.children[i as int].1);
                let val = &mut self.children[i].1;
                let found = val.toggle_expanded(counter);
                if found {
                    proof {
                        let q = rows(child_before)[p as int].path;
                        assert(rows(t)[orig as int] == entry[1 + p]);
                        assert((seq![i as int] + q).drop_first() =~= q);
                        assert(self@.children =~= t.children.update(i as int, (key@, child_before.toggled_at(q))));
                    }
                    return true;
                }
                assert(self@.children =~= t.children);
            }
            i = i + 1;
        }
        false
    }
}

/// Folding or expanding a topic keeps a tree well-formed and leaves every count as it was.
pub proof fn lemma_toggled_wf(t: TopicTree, path: Seq<int>)
    requires
        t.wf(),
    ensures
        t.toggled_at(path).wf(),
        t.toggled_at(path).total_count == t.total_count,
        t.toggled_at(path).messages == t.messages,
    decreases path.len(),
{
    if path.len() > 0 && 0 <= path[0] < t.children.len() {
        let j = path[0];
        let c = t.children[j].1;
        assert(c.wf());
        lemma_toggled_wf(c, path.drop_first());
        let n = t.toggled_at(path).children;
        lemma_children_total_update(t.children, j, (t.children[j].0, c.toggled_at(path.drop_first())));
        assert forall|a: int, b: int| 0 <= a < b < n.len() implies lex_lt(#[trigger] n[a].0, #[trigger] n[b].0) by {
            assert(n[a].0 == t.children[a].0);
            assert(n[b].0 == t.children[b].0);
        }
        assert forall|i: int| 0 <= i < n.len() implies (#[trigger] n[i]).1.wf() by {
            if i != j {
                assert(n[i] == t.children[i]);
            }
        }
    }
}

/// The sub-topic whose rows hold line `n` of a listing made of the first `k` sub-topics.
proof fn lemma_locate(cs: Seq<(Seq<char>, TopicTree)>, n: int, k: int) -> (j: int)
    requires
        0 <= k <= cs.len(),
        0 <= n < rows_upto(cs, k).len(),
    ensures
        0 <= j < k,
        rows_upto(cs, j).len() <= n < rows_upto(cs, j + 1).len(),
        rows_upto(cs, j + 1) == rows_upto(cs, j) + entry_rows(cs, j),
    decreases k,
{
    if n >= rows_upto(cs, k - 1).len() {
        k - 1
    } else {
        lemma_locate(cs, n, k - 1)
    }
}

/// Every listed row shows the topic that its path leads to.
pub proof fn lemma_row_node(t: TopicTree, n: int)
    requires
        0 <= n < rows(t).len(),
    ensures
        t.node_at(rows(t)[n].path) == rows(t)[n].node,
        rows(t)[n].path.len() >= 1,
        has_path(t, rows(t)[n].path),
    decreases t,
{
    let cs = t.children;
    let j = lemma_locate(cs, n, cs.len() as int);
    lemma_rows_upto_prefix(cs, j + 1, cs.len() as int);
    let o = n - rows_upto(cs, j).len();
    let entry = entry_rows(cs, j);
    assert(rows(t)[n] == entry[o]);
    if o > 0 {
        let c = cs[j].1;
        lemma_row_node(c, o - 1);
        let r = rows(c)[o - 1];
        assert(entry[o] == Row { path: seq![j] + r.path, ..r });
        assert((seq![j] + r.path).drop_first() =~= r.path);
        assert((seq![j] + r.path)[0] == j);
        assert(t.node_at(seq![j] + r.path) == c.node_at(r.path));
    } else {
        assert(seq![j].drop_first() =~= Seq::<int>::empty());
        assert(t.node_at(seq![j]) == cs[j].1.node_at(Seq::empty()));
        assert(has_path(cs[j].1, seq![j].drop_first()));
    }
}

proof fn lemma_rows_upto_same(cs: Seq<(Seq<char>, TopicTree)>, ds: Seq<(Seq<char>, TopicTree)>, j: int)
    requires
        0 <= j <= cs.len(),
        j <= ds.len(),
        forall|i: int| 0 <= i < j ==> cs[i] == ds[i],
    ensures
        rows_upto(cs, j) == rows_upto(ds, j),
    decreases j,
{
    if j > 0 {
        lemma_rows_upto_same(cs, ds, j - 1);
        assert(entry_rows(cs, j - 1) == entry_rows(ds, j - 1));
    }
}

/// Folding or expanding the same topic twice gives back the tree.
pub proof fn lemma_toggled_twice(t: TopicTree, path: Seq<int>)
    ensures
        t.toggled_at(path).toggled_at(path) == t,
    decreases path.len(),
{
    if path.len() > 0 && 0 <= path[0] < t.children.len() {
        let j = path[0];
        lemma_toggled_twice(t.children[j].1, path.drop_first());
        assert(t.toggled_at(path).toggled_at(path).children =~= t.children);
    }
}

/// Folding or expanding a topic flips exactly that topic's flag: the topic at the same path
/// afterwards is the same but for being expanded.
pub proof fn lemma_toggled_node(t: TopicTree, n: int)
    requires
        0 <= n < rows(t).len(),
    ensures
        t.toggled_at(rows(t)[n].path).node_at(rows(t)[n].path) == rows(t)[n].node.flipped(),
{
    lemma_row_node(t, n);
    lemma_toggled_path_node(t, rows(t)[n].path);
}

/// The path leads through existing sub-topics all the way.
pub open spec fn has_path(t: TopicTree, path: Seq<int>) -> bool
    decreases path.len(),
{
    path.len() == 0 || (0 <= path[0] < t.children.len() && has_path(t.children[path[0]].1, path.drop_first()))
}

proof fn lemma_toggled_path_node(t: TopicTree, path: Seq<int>)
    requires
        has_path(t, path),
    ensures
        t.toggled_at(path).node_at(path) == t.node_at(path).flipped(),
    decreases path.len(),
{
    if path.len() > 0 {
        lemma_toggled_path_node(t.children[path[0]].1, path.drop_first());
    }
}

/// Folding or expanding the topic on a line leaves that topic on the same line.
pub proof fn lemma_toggle_keeps_row(t: TopicTree, n: int)
    requires
        0 <= n < rows(t).len(),
    ensures
        n < rows(t.toggled_at(rows(t)[n].path)).len(),
        rows(t.toggled_at(rows(t)[n].path))[n].path == rows(t)[n].path,
    decreases t,
{
    let cs = t.children;
    let p = rows(t)[n].path;
    let t2 = t.toggled_at(p);
    let ds = t2.children;
    let j = lemma_locate(cs, n, cs.len() as int);
    lemma_rows_upto_prefix(cs, j + 1, cs.len() as int);
    let o = n - rows_upto(cs, j).len();
    let entry = entry_rows(cs, j);
    assert(rows(t)[n] == entry[o]);
    lemma_row_node(t, n);
    assert(p[0] == j);
    let c2 = cs[j].1.toggled_at(p.drop_first());
    assert(ds == cs.update(j, (cs[j].0, c2)));
    lemma_rows_upto_same(cs, ds, j);
    lemma_rows_upto_prefix(ds, j + 1, ds.len() as int);
    assert(rows_upto(ds, j + 1) == rows_upto(ds, j) + entry_rows(ds, j));
    assert(rows(t2) == rows_upto(ds, ds.len() as int));
    if o == 0 {
        assert(p =~= seq![j]);
        assert(rows(t2)[n] == entry_rows(ds, j)[0]);
    } else {
        let c = cs[j].1;
        lemma_row_node(c, o - 1);
        let r = rows(c)[o - 1];
        assert(entry[o] == Row { path: seq![j] + r.path, ..r });
        assert(p.drop_first() =~= r.path);
        lemma_toggle_keeps_row(c, o - 1);
        assert(c2.expanded == c.expanded);
        assert(entry_rows(ds, j)[o] == Row { path: seq![j] + rows(c2)[o - 1].path, ..rows(c2)[o - 1] });
        assert(rows(t2)[n] == entry_rows(ds, j)[o]);
    }
}

/// Folding or expanding the topic on line `n` of the listing, then the topic on line `n`
/// again, gives back the tree: the line still shows the same topic after the first change.
pub proof fn lemma_toggle_twice(t: TopicTree, n: int)
    requires
        0 <= n < rows(t).len(),
    ensures
        n < rows(t.toggled_at(rows(t)[n].path)).len(),
        t.toggled_at(rows(t)[n].path).toggled_at(rows(t.toggled_at(rows(t)[n].path))[n].path) == t,
{
    lemma_toggle_keeps_row(t, n);
    lemma_toggled_twice(t, rows(t)[n].path);
}

/// The messages kept by the topic at `levels`, or none where that topic does not exist.
pub open spec fn messages_at(t: TopicTree, levels: Seq<Seq<char>>) -> Seq<Message> {
    match t.lookup(levels) {
        Some(n) => n.messages,
        None => Seq::empty(),
    }
}

proof fn lemma_with_child_lookup(t: TopicTree, k: Seq<char>, c: TopicTree)
    requires
        keys_sorted(t.children),
    ensures
        t.with_child(k, c).has_child(k),
        t.with_child(k, c).child(k) == c,
{
    let cs = t.children;
    let n = t.with_child(k, c).children;
    lemma_lower_bound_bounds(cs, k);
    let p = lower_bound(cs, k) as int;
    lemma_lex_lt_irreflexive(k);
    assert forall|j: int| 0 <= j < p implies lex_lt(#[trigger] n[j].0, k) by {
        assert(n[j] == cs[j]);
    }
    lemma_lower_bound_at(n, k, p);
}

proof fn lemma_messages_at_bumped(t: TopicTree, levels: Seq<Seq<char>>)
    ensures
        messages_at(t.bumped(), levels) == messages_at(t, levels),
{
}

/// What a message delivered down some levels leaves at the last of them: the messages that
/// topic kept before (none if it did not exist) followed by the new one, the oldest dropped
/// beyond `MAX_MESSAGES`.
pub proof fn lemma_delivered_lookup(t: TopicTree, levels: Seq<Seq<char>>, msg: Message)
    requires
        t.wf(),
    ensures
        t.delivered(levels, msg).lookup(levels) is Some,
        messages_at(t.delivered(levels, msg), levels) == keep_newest(messages_at(t, levels).push(msg)),
    decreases levels.len(),
{
    if levels.len() > 0 {
        let k = levels[0];
        let rest = levels.drop_first();
        lemma_with_child(t, k, empty_tree());
        let c = t.child(k).bumped();
        lemma_delivered_lookup(c, rest, msg);
        lemma_with_child_lookup(t, k, c.delivered(rest, msg));
        lemma_messages_at_bumped(t.child(k), rest);
        if !t.has_child(k) {
            if rest.len() > 0 {
                assert(!empty_tree().has_child(rest[0]));
            }
        }
    }
}

/// Reading back a write: after a message on `topic` arrives, the topic at the levels of
/// `topic` exists and keeps that message as its newest, after the ones it kept before.
pub proof fn lemma_insert_then_lookup(t: TopicTree, topic: Seq<char>, msg: Message)
    requires
        t.wf(),
    ensures
        t.inserted(topic, msg).lookup(topic_levels(topic)) is Some,
        messages_at(t.inserted(topic, msg), topic_levels(topic)) == keep_newest(messages_at(t, topic_levels(topic)).push(msg)),
        messages_at(t.inserted(topic, msg), topic_levels(topic)).last() == msg,
{
    assert(t.bumped().wf());
    lemma_delivered_lookup(t.bumped(), topic_levels(topic), msg);
    lemma_messages_at_bumped(t, topic_levels(topic));
}

/// A message delivered down some levels leaves every other topic as it was: what it keeps,
/// and whether it exists.
pub proof fn lemma_delivered_other(t: TopicTree, levels: Seq<Seq<char>>, msg: Message, other: Seq<Seq<char>>)
    requires
        t.wf(),
        other != levels,
    ensures
        messages_at(t.delivered(levels, msg), other) == messages_at(t, other),
        t.lookup(other) is Some ==> t.delivered(levels, msg).lookup(other) is Some,
    decreases levels.len(),
{
    let d = t.delivered(levels, msg);
    if levels.len() == 0 {
        if other.len() == 0 {
            assert(other =~= levels);
        }
        assert(d.children == t.children);
    } else {
        let k = levels[0];
        let rest = levels.drop_first();
        lemma_with_child(t, k, empty_tree());
        let c = t.child(k).bumped();
        let dc = c.delivered(rest, msg);
        lemma_with_child_lookup(t, k, dc);
        if other.len() > 0 {
            let k2 = other[0];
            let orest = other.drop_first();
            if k2 == k {
                assert(orest != rest) by {
                    if orest == rest {
                        assert(other =~= seq![k] + rest);
                        assert(levels =~= seq![k] + rest);
                    }
                }
                lemma_delivered_other(c, rest, msg, orest);
                lemma_messages_at_bumped(t.child(k), orest);
                if !t.has_child(k) && orest.len() > 0 {
                    assert(!empty_tree().has_child(orest[0]));
                    assert(!empty_tree().bumped().has_child(orest[0]));
                }
                if t.lookup(other) is Some {
                    assert(t.child(k).lookup(orest) is Some);
                    assert(c.lookup(orest) == if orest.len() == 0 { Some(c) } else { t.child(k).lookup(orest) });
                }
            } else {
                lemma_with_child_other(t, k, dc, k2);
            }
        }
    }
}

/// A message on one topic leaves every other topic as it was, and no topic disappears.
pub proof fn lemma_insert_keeps_others(t: TopicTree, topic: Seq<char>, msg: Message, other: Seq<Seq<char>>)
    requires
        t.wf(),
        other != topic_levels(topic),
    ensures
        messages_at(t.inserted(topic, msg), other) == messages_at(t, other),
        t.lookup(other) is Some ==> t.inserted(topic, msg).lookup(other) is Some,
{
    assert(t.bumped().wf());
    lemma_delivered_other(t.bumped(), topic_levels(topic), msg, other);
    lemma_messages_at_bumped(t, other);
    if other.len() > 0 {
        assert(t.bumped().lookup(other) == t.lookup(other));
    }
}

proof fn lemma_counts_fit_bumped(t: TopicTree, levels: Seq<Seq<char>>)
    ensures
        counts_fit(t.bumped(), levels) == counts_fit(t, levels),
{
    if levels.len() > 0 {
        assert(t.bumped().child(levels[0]) == t.child(levels[0]));
    }
}

/// In a well-formed tree every count is at most the root's, so every level on any way down
/// can count one more message where the root can.
pub proof fn lemma_wf_counts_fit(t: TopicTree, levels: Seq<Seq<char>>)
    requires
        t.wf(),
        t.total_count < u64::MAX,
    ensures
        counts_fit(t, levels),
    decreases levels.len(),
{
    if levels.len() > 0 {
        lemma_with_child(t, levels[0], empty_tree());
        lemma_wf_counts_fit(t.child(levels[0]), levels.drop_first());
    }
}

/// A well-formed tree has its names in order at every level.
pub proof fn lemma_wf_sorted(t: TopicTree)
    requires
        t.wf(),
    ensures
        sorted_tree(t),
    decreases t,
{
    assert forall|i: int| 0 <= i < t.children.len() implies sorted_tree(#[trigger] t.children[i].1) by {
        lemma_wf_sorted(t.children[i].1);
    }
}

/// Handing a message down keeps the names in order at every level.
pub proof fn lemma_delivered_sorted(t: TopicTree, levels: Seq<Seq<char>>, msg: Message)
    requires
        sorted_tree(t),
    ensures
        sorted_tree(t.delivered(levels, msg)),
    decreases levels.len(),
{
    if levels.len() > 0 {
        let k = levels[0];
        let c = t.child(k);
        assert(sorted_tree(c)) by {
            if t.has_child(k) {
                assert(sorted_tree(t.children[lower_bound(t.children, k) as int].1));
            }
        }
        assert(sorted_tree(c.bumped()));
        let d = c.bumped().delivered(levels.drop_first(), msg);
        lemma_delivered_sorted(c.bumped(), levels.drop_first(), msg);
        lemma_with_child_sorted(t, k, d);
        lemma_lower_bound_bounds(t.children, k);
        let n = t.with_child(k, d).children;
        let p = lower_bound(t.children, k) as int;
        assert forall|i: int| 0 <= i < n.len() implies sorted_tree(#[trigger] n[i].1) by {
            if i < p {
                assert(n[i] == t.children[i]);
            } else if i > p {
                if t.has_child(k) {
                    assert(n[i] == t.children[i]);
                } else {
                    assert(n[i] == t.children[i - 1]);
                }
            }
        }
    }
}

/// After folding or expanding the topic on line `n`, line `n` shows that topic, changed in
/// nothing but its flag.
pub proof fn lemma_toggle_shows_flipped(t: TopicTree, n: int)
    requires
        0 <= n < rows(t).len(),
    ensures
        n < rows(t.toggled_at(rows(t)[n].path)).len(),
        rows(t.toggled_at(rows(t)[n].path))[n].path == rows(t)[n].path,
        rows(t.toggled_at(rows(t)[n].path))[n].node == rows(t)[n].node.flipped(),
{
    let t2 = t.toggled_at(rows(t)[n].path);
    lemma_toggle_keeps_row(t, n);
    lemma_row_node(t2, n);
    lemma_toggled_node(t, n);
}

proof fn lemma_rows_upto_len_update(cs: Seq<(Seq<char>, TopicTree)>, ds: Seq<(Seq<char>, TopicTree)>, j: int, k: int)
    requires
        cs.len() == ds.len(),
        0 <= j < k <= cs.len(),
        forall|i: int| 0 <= i < cs.len() && i != j ==> cs[i] == ds[i],
    ensures
        rows_upto(ds, k).len() + entry_rows(cs, j).len() == rows_upto(cs, k).len() + entry_rows(ds, j).len(),
    decreases k,
{
    if k == j + 1 {
        lemma_rows_upto_same(cs, ds, j);
    } else {
        lemma_rows_upto_len_update(cs, ds, j, k - 1);
        assert(entry_rows(cs, k - 1) == entry_rows(ds, k - 1));
    }
}

/// Expanding the topic on a line shows its own listing below it; folding it hides that listing.
pub proof fn lemma_toggle_visible_count(t: TopicTree, n: int)
    requires
        0 <= n < rows(t).len(),
    ensures
        rows(t.toggled_at(rows(t)[n].path)).len() + (if rows(t)[n].node.expanded { rows(rows(t)[n].node).len() } else { 0 })
            == rows(t).len() + (if rows(t)[n].node.expanded { 0 } else { rows(rows(t)[n].node).len() }),
    decreases t,
{
    let cs = t.children;
    let p = rows(t)[n].path;
    let t2 = t.toggled_at(p);
    let ds = t2.children;
    let j = lemma_locate(cs, n, cs.len() as int);
    lemma_rows_upto_prefix(cs, j + 1, cs.len() as int);
    let o = n - rows_upto(cs, j).len();
    let entry = entry_rows(cs, j);
    assert(rows(t)[n] == entry[o]);
    lemma_row_node(t, n);
    assert(p[0] == j);
    let c = cs[j].1;
    let c2 = c.toggled_at(p.drop_first());
    assert(ds == cs.update(j, (cs[j].0, c2)));
    lemma_rows_upto_len_update(cs, ds, j, cs.len() as int);
    assert(rows(t2) == rows_upto(ds, ds.len() as int));
    if o == 0 {
        assert(p =~= seq![j]);
        assert(p.drop_first() =~= Seq::<int>::empty());
        assert(c2 == c.flipped());
        assert(rows(c2) == rows(c));
    } else {
        lemma_row_node(c, o - 1);
        let r = rows(c)[o - 1];
        assert(entry[o] == Row { path: seq![j] + r.path, ..r });
        assert(p.drop_first() =~= r.path);
        lemma_toggle_visible_count(c, o - 1);
        assert(c2.expanded == c.expanded);
    }
}

/// Every topic below the tree has counted at least one message.
pub open spec fn all_counted(t: TopicTree) -> bool
    decreases t,
{
    forall|i: int| 0 <= i < t.children.len() ==> (#[trigger] t.children[i]).1.total_count >= 1 && all_counted(t.children[i].1)
}

/// The shape of a tree grown from an empty one by messages: the root keeps no message, counts
/// exactly what its sub-topics count, and every topic below it has counted a message.
pub open spec fn root_shape(t: TopicTree) -> bool {
    &&& children_total(t.children) == t.total_count
    &&& t.messages.len() == 0
    &&& all_counted(t)
}

/// Handing a message down leaves every topic below having counted a message.
proof fn lemma_delivered_counted(t: TopicTree, levels: Seq<Seq<char>>, msg: Message)
    requires
        all_counted(t),
    ensures
        all_counted(t.delivered(levels, msg)),
    decreases levels.len(),
{
    if levels.len() > 0 {
        let k = levels[0];
        let c = t.child(k);
        assert(all_counted(c)) by {
            if t.has_child(k) {
                assert(all_counted(t.children[lower_bound(t.children, k) as int].1));
            }
        }
        assert(all_counted(c.bumped())) by {
            assert(c.bumped().children == c.children);
        }
        let d = c.bumped().delivered(levels.drop_first(), msg);
        lemma_delivered_counted(c.bumped(), levels.drop_first(), msg);
        lemma_delivered_total(c.bumped(), levels.drop_first(), msg);
        lemma_lower_bound_bounds(t.children, k);
        let n = t.with_child(k, d).children;
        let p = lower_bound(t.children, k) as int;
        assert forall|i: int| 0 <= i < n.len() implies (#[trigger] n[i]).1.total_count >= 1 && all_counted(n[i].1) by {
            if i < p {
                assert(n[i] == t.children[i]);
            } else if i > p {
                if t.has_child(k) {
                    assert(n[i] == t.children[i]);
                } else {
                    assert(n[i] == t.children[i - 1]);
                }
            }
        }
    }
}

/// Handing a message down leaves the tree's own count and kept messages where the way goes on.
proof fn lemma_delivered_total(t: TopicTree, levels: Seq<Seq<char>>, msg: Message)
    ensures
        t.delivered(levels, msg).total_count == t.total_count,
        levels.len() > 0 ==> t.delivered(levels, msg).messages == t.messages,
{
}

/// The empty tree has the shape of a grown one.
pub proof fn lemma_empty_root_shape()
    ensures
        root_shape(empty_tree()),
{
}

/// A message keeps the shape of a grown tree: the root still keeps no message and counts
/// exactly what its sub-topics count, and every topic below has counted a message.
pub proof fn lemma_insert_root_shape(t: TopicTree, topic: Seq<char>, msg: Message)
    requires
        t.wf(),
        root_shape(t),
    ensures
        root_shape(t.inserted(topic, msg)),
{
    let levels = topic_levels(topic);
    crate::text::lemma_split_join(topic, TOPIC_SEPARATOR);
    let b = t.bumped();
    let k = levels[0];
    let rest = levels.drop_first();
    lemma_with_child(t, k, empty_tree());
    let c = t.child(k);
    assert(b.child(k) == c);
    assert(c.bumped().wf());
    lemma_delivered_wf(c.bumped(), rest, msg);
    let d = c.bumped().delivered(rest, msg);
    assert(b.wf());
    lemma_with_child(b, k, d);
    assert(all_counted(b)) by {
        assert(b.children == t.children);
    }
    lemma_delivered_counted(b, levels, msg);
}

/// The tree after the messages `ms` arrived at `t` one after the other, each on its own topic.
pub open spec fn inserted_all(t: TopicTree, ms: Seq<Message>) -> TopicTree
    decreases ms.len(),
{
    if ms.len() == 0 {
        t
    } else {
        inserted_all(t, ms.drop_last()).inserted(ms.last().topic@, ms.last())
    }
}

/// A tree grown from an empty one by any messages on any topics is well-formed (names in
/// order, at most `MAX_MESSAGES` kept, counts covering sub-topics and kept messages), has the
/// shape of a grown tree (the root keeps no message and counts exactly what its sub-topics
/// count, every topic below has counted a message), and its root counts every message.
pub proof fn lemma_grown_tree(ms: Seq<Message>)
    ensures
        inserted_all(empty_tree(), ms).wf(),
        root_shape(inserted_all(empty_tree(), ms)),
        inserted_all(empty_tree(), ms).total_count == ms.len(),
    decreases ms.len(),
{
    if ms.len() > 0 {
        let g = inserted_all(empty_tree(), ms.drop_last());
        lemma_grown_tree(ms.drop_last());
        let m = ms.last();
        assert(g.bumped().wf());
        lemma_delivered_wf(g.bumped(), topic_levels(m.topic@), m);
        lemma_insert_root_shape(g, m.topic@, m);
    }
}

/// The name of the sub-topic reached by following `path` (empty where it leads nowhere).
pub open spec fn label_at(t: TopicTree, path: Seq<int>) -> Seq<char>
    decreases path.len(),
{
    if path.len() == 0 || !(0 <= path[0] < t.children.len()) {
        Seq::empty()
    } else if path.len() == 1 {
        t.children[path[0]].0
    } else {
        label_at(t.children[path[0]].1, path.drop_first())
    }
}

/// Every listed row shows the name that its path leads to.
pub proof fn lemma_row_label(t: TopicTree, n: int)
    requires
        0 <= n < rows(t).len(),
    ensures
        label_at(t, rows(t)[n].path) == rows(t)[n].label,
    decreases t,
{
    let cs = t.children;
    let j = lemma_locate(cs, n, cs.len() as int);
    lemma_rows_upto_prefix(cs, j + 1, cs.len() as int);
    let o = n - rows_upto(cs, j).len();
    let entry = entry_rows(cs, j);
    assert(rows(t)[n] == entry[o]);
    if o > 0 {
        let c = cs[j].1;
        lemma_row_label(c, o - 1);
        lemma_row_node(c, o - 1);
        let r = rows(c)[o - 1];
        assert(entry[o] == Row { path: seq![j] + r.path, ..r });
        assert((seq![j] + r.path).drop_first() =~= r.path);
        assert((seq![j] + r.path)[0] == j);
    }
}

/// Folding or expanding a topic renames nothing.
pub proof fn lemma_toggled_labels(t: TopicTree, p: Seq<int>, q: Seq<int>)
    ensures
        label_at(t.toggled_at(p), q) == label_at(t, q),
    decreases q.len(),
{
    let t2 = t.toggled_at(p);
    assert(t2.children.len() == t.children.len());
    if q.len() > 0 && 0 <= q[0] < t.children.len() {
        assert(t2.children[q[0]].0 == t.children[q[0]].0);
        if q.len() > 1 {
            if p.len() > 0 && p[0] == q[0] {
                lemma_toggled_labels(t.children[q[0]].1, p.drop_first(), q.drop_first());
            } else {
                assert(t2.children[q[0]] == t.children[q[0]]);
            }
        }
    }
}

} // verus!
