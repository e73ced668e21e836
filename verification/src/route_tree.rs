//! The segment-tree matcher.
//!
//! A tree of literal and wildcard branches whose nodes carry the rules that end there,
//! and summaries of the outcomes that lie below them. What a path selects and what a
//! region of paths can select is stated in [`routing`](crate::routing).

use vstd::prelude::*;
use vstd::string::*;

use crate::cover;
use crate::cover::{Cover, RuleId, DEFAULT_RULE};
use crate::diagnostics::RawMatch;
use crate::pattern::{Pattern, Segment};
use crate::percent::copy_bytes;
use crate::routing;
use crate::routing::{Key, Slot, Slots, Step, Tail};
use crate::slot;
use crate::slot::{MethodSlot, PathEntry, SlotConflict};

verus! {

/// Summaries for one method category at a node.
#[derive(Clone, Copy)]
pub struct RegionCover {
    /// All terminals, including the bare leaf (also used at the root anchor).
    pub all: Cover,
    /// Excludes the bare leaf: a non-root anchor retains its trailing separator.
    pub below: Cover,
}

/// A literal branch.
pub struct Branch {
    pub text: Vec<u8>,
    pub node: Node,
}

/// A node in the route tree.
pub struct Node {
    /// Exact-segment children.
    pub literals: Vec<Branch>,
    /// The single wildcard child at this depth, if any.
    pub wildcard: Option<Box<Node>>,
    /// Rules (no trailing slash) terminating here, keyed by method.
    pub leaf: MethodSlot,
    /// Rules *with* a trailing slash terminating here, keyed by method.
    pub leaf_slash: MethodSlot,
    /// Trailing catch-all rules rooted here, keyed by method.
    pub catchall: MethodSlot,
    /// Coverage for methods without an explicit registration anywhere in the table.
    pub other_cover: RegionCover,
    /// Coverage in the router's method-index order. Empty for all-method tables.
    pub method_covers: Vec<RegionCover>,
}

/// The first branch for the segment at or after `i`, or the number of branches.
pub open spec fn branch_for(branches: Seq<Branch>, segment: Seq<u8>, i: int) -> int
    decreases branches.len() - i,
{
    if i >= branches.len() || branches[i].text@ == segment {
        i
    } else {
        branch_for(branches, segment, i + 1)
    }
}

/// The child behind a step.
pub open spec fn child(node: Node, step: Step) -> Option<Node> {
    match step {
        Step::Literal(segment) => {
            let i = branch_for(node.literals@, segment, 0);
            if 0 <= i < node.literals@.len() {
                Some(node.literals@[i].node)
            } else {
                None
            }
        },
        Step::Wildcard => match node.wildcard {
            Some(boxed) => Some(*boxed),
            None => None,
        },
    }
}

/// The slot at a terminal of the tree.
pub open spec fn lookup(node: Node, key: Key) -> Slot
    decreases key.steps.len(),
{
    if key.steps.len() == 0 {
        match key.tail {
            Tail::Leaf => node.leaf@,
            Tail::LeafSlash => node.leaf_slash@,
            Tail::CatchAll => node.catchall@,
        }
    } else {
        match child(node, key.steps[0]) {
            Some(next) => lookup(next, routing::below(key)),
            None => routing::unclaimed(),
        }
    }
}

/// The table that a tree stands for.
pub open spec fn slots_of(node: Node) -> Slots {
    |key: Key| lookup(node, key)
}

/// No segment has two branches, anywhere in the tree.
pub open spec fn tidy(node: Node) -> bool
    decreases node,
{
    &&& forall|i: int, j: int|
        0 <= i < j < node.literals@.len() ==> #[trigger] node.literals@[i].text@
            != #[trigger] node.literals@[j].text@
    &&& forall|i: int| 0 <= i < node.literals@.len() ==> tidy(#[trigger] node.literals@[i].node)
    &&& match node.wildcard {
        Some(boxed) => tidy(*boxed),
        None => true,
    }
}

proof fn lemma_branch_for(branches: Seq<Branch>, segment: Seq<u8>, i: int)
    requires
        0 <= i <= branches.len(),
    ensures
        i <= branch_for(branches, segment, i) <= branches.len(),
        branch_for(branches, segment, i) < branches.len() ==> branches[branch_for(
            branches,
            segment,
            i,
        )].text@ == segment,
        forall|j: int|
            i <= j < branch_for(branches, segment, i) ==> (#[trigger] branches[j]).text@ != segment,
    decreases branches.len() - i,
{
    if i < branches.len() && branches[i].text@ != segment {
        lemma_branch_for(branches, segment, i + 1);
    }
}

/// The branch for a segment is determined by what stands where.
proof fn lemma_branch_at(branches: Seq<Branch>, segment: Seq<u8>, i: int)
    requires
        0 <= i <= branches.len(),
        i < branches.len() ==> branches[i].text@ == segment,
        forall|j: int| 0 <= j < i ==> (#[trigger] branches[j]).text@ != segment,
    ensures
        branch_for(branches, segment, 0) == i,
{
    lemma_branch_for(branches, segment, 0);
    let k = branch_for(branches, segment, 0);
    if k < i {
        assert(branches[k].text@ != segment);
    } else if i < k {
        assert(branches[i].text@ != segment);
    }
}

impl Node {
    pub fn new() -> (node: Self)
        ensures
            tidy(node),
            forall|key: Key| #[trigger] lookup(node, key) == routing::unclaimed(),
            node.literals@.len() == 0,
            node.wildcard is None,
            node.other_cover == (RegionCover { all: Cover::Empty, below: Cover::Empty }),
            node.method_covers@.len() == 0,
    {
        let empty = RegionCover { all: Cover::Empty, below: Cover::Empty };
        Node {
            literals: Vec::new(),
            wildcard: None,
            leaf: MethodSlot::unclaimed(),
            leaf_slash: MethodSlot::unclaimed(),
            catchall: MethodSlot::unclaimed(),
            other_cover: empty,
            method_covers: Vec::new(),
        }
    }

    /// The index of the branch for a segment, or the number of branches.
    fn branch_index(&self, segment: &[u8]) -> (index: usize)
        ensures
            index == branch_for(self.literals@, segment@, 0),
            index <= self.literals@.len(),
    {
        proof {
            lemma_branch_for(self.literals@, segment@, 0);
        }
        let mut i: usize = 0;
        while i < self.literals.len()
            invariant
                i <= self.literals@.len(),
                branch_for(self.literals@, segment@, 0) == branch_for(
                    self.literals@,
                    segment@,
                    i as int,
                ),
            decreases self.literals@.len() - i,
        {
            if same_bytes(&self.literals[i].text, segment) {
                return i;
            }
            i = i + 1;
        }
        i
    }
}

/// Whether two byte strings are equal.
fn same_bytes(a: &[u8], b: &[u8]) -> (same: bool)
    ensures
        same == (a@ == b@),
{
    if a.len() != b.len() {
        return false;
    }
    let mut i: usize = 0;
    while i < a.len()
        invariant
            i <= a@.len(),
            a@.len() == b@.len(),
            forall|j: int| 0 <= j < i ==> a@[j] == b@[j],
        decreases a@.len() - i,
    {
        if a[i] != b[i] {
            return false;
        }
        i = i + 1;
    }
    assert(a@ =~= b@);
    true
}

/// The key of an entry as seen from a node `depth` segments down.
pub open spec fn entry_key(entry: PathEntry, depth: int) -> Key {
    routing::key_from(entry.pattern@.segments.skip(depth), entry.pattern.trailing_slash)
}

/// Whether `after` is `before` with an entry more, at the key `at`.
pub open spec fn inserted(before: Node, after: Node, at: Key, entry: PathEntry) -> bool {
    forall|key: Key| #[trigger]
        lookup(after, key) == if key == at {
            slot::slot_with_entry(lookup(before, at), entry)->Some_0
        } else {
            lookup(before, key)
        }
}

/// Nodes with the same own slots.
spec fn same_slots(a: Node, b: Node) -> bool {
    &&& a.leaf == b.leaf
    &&& a.leaf_slash == b.leaf_slash
    &&& a.catchall == b.catchall
}

/// An insertion at a node itself.
proof fn lemma_inserted_here(before: Node, after: Node, tail: Tail, entry: PathEntry)
    requires
        before.literals == after.literals,
        before.wildcard == after.wildcard,
        tail != Tail::Leaf ==> before.leaf == after.leaf,
        tail != Tail::LeafSlash ==> before.leaf_slash == after.leaf_slash,
        tail != Tail::CatchAll ==> before.catchall == after.catchall,
        slot::slot_with_entry(lookup(before, routing::here(tail)), entry) == Some(
            lookup(after, routing::here(tail)),
        ),
        tidy(before),
    ensures
        inserted(before, after, routing::here(tail), entry),
        tidy(after),
{
    let at = routing::here(tail);
    assert forall|key: Key| #[trigger] lookup(after, key) == if key == at {
        slot::slot_with_entry(lookup(before, at), entry)->Some_0
    } else {
        lookup(before, key)
    } by {
        if key.steps.len() == 0 {
            assert(key.steps =~= at.steps);
        } else {
            assert(child(after, key.steps[0]) == child(before, key.steps[0]));
        }
    }
}

/// Opening an empty branch changes no slot.
proof fn lemma_opened(before: Node, opened: Node, step: Step)
    requires
        same_slots(before, opened),
        forall|other: Step| other != step ==> #[trigger] child(opened, other) == child(
            before,
            other,
        ),
        child(opened, step) is Some,
        child(before, step) == child(opened, step) || (child(before, step) is None && forall|key: Key|
         #[trigger] lookup(child(opened, step)->Some_0, key) == routing::unclaimed()),
    ensures
        forall|key: Key| #[trigger] lookup(opened, key) == lookup(before, key),
{
    assert forall|key: Key| #[trigger] lookup(opened, key) == lookup(before, key) by {
        if key.steps.len() == 0 {
            assert(opened.leaf@ == before.leaf@);
        } else {
            if key.steps[0] == step {
                let next = child(opened, step)->Some_0;
                assert(lookup(opened, key) == lookup(next, routing::below(key)));
                if child(before, step) is None {
                    assert(lookup(before, key) == routing::unclaimed());
                    assert(lookup(next, routing::below(key)) == routing::unclaimed());
                } else {
                    assert(lookup(before, key) == lookup(next, routing::below(key)));
                }
            } else {
                assert(child(opened, key.steps[0]) == child(before, key.steps[0]));
            }
        }
    }
}

/// An insertion behind a step is an insertion.
proof fn lemma_inserted_below(before: Node, after: Node, step: Step, at: Key, entry: PathEntry)
    requires
        same_slots(before, after),
        at.steps.len() > 0,
        at.steps[0] == step,
        child(before, step) is Some,
        child(after, step) is Some,
        inserted(child(before, step)->Some_0, child(after, step)->Some_0, routing::below(at), entry),
        forall|other: Step| other != step ==> #[trigger] child(after, other) == child(
            before,
            other,
        ),
    ensures
        inserted(before, after, at, entry),
        lookup(before, at) == lookup(child(before, step)->Some_0, routing::below(at)),
{
    assert forall|key: Key| #[trigger] lookup(after, key) == if key == at {
        slot::slot_with_entry(lookup(before, at), entry)->Some_0
    } else {
        lookup(before, key)
    } by {
        if key.steps.len() == 0 {
            assert(after.leaf@ == before.leaf@);
        } else {
            if key.steps[0] == step {
                let c0 = child(before, step)->Some_0;
                let c1 = child(after, step)->Some_0;
                if routing::below(key) == routing::below(at) {
                    assert(key.steps =~= seq![step] + routing::below(key).steps);
                    assert(at.steps =~= seq![step] + routing::below(at).steps);
                    assert(key == at);
                }
                assert(lookup(after, key) == lookup(c1, routing::below(key)));
                assert(lookup(before, key) == lookup(c0, routing::below(key)));
                assert(lookup(before, at) == lookup(c0, routing::below(at)));
            } else {
                assert(child(after, key.steps[0]) == child(before, key.steps[0]));
            }
        }
    }
}

/// Opening a literal branch.
proof fn lemma_literal_opened(before: Node, opened: Node, text: Seq<u8>, i: int)
    requires
        tidy(before),
        same_slots(before, opened),
        before.wildcard == opened.wildcard,
        i == branch_for(before.literals@, text, 0),
        if i == before.literals@.len() {
            &&& opened.literals@.len() == i + 1
            &&& opened.literals@.drop_last() == before.literals@
            &&& opened.literals@[i].text@ == text
            &&& tidy(opened.literals@[i].node)
            &&& forall|key: Key| #[trigger]
                lookup(opened.literals@[i].node, key) == routing::unclaimed()
        } else {
            opened == before
        },
    ensures
        tidy(opened),
        i < opened.literals@.len(),
        opened.literals@[i].text@ == text,
        branch_for(opened.literals@, text, 0) == i,
        child(opened, Step::Literal(text)) == Some(opened.literals@[i].node),
        forall|key: Key| #[trigger] lookup(opened, key) == lookup(before, key),
{
    lemma_branch_for(before.literals@, text, 0);
    if i == before.literals@.len() {
        let a = before.literals@;
        let b = opened.literals@;
        assert(forall|j: int| 0 <= j < i ==> b[j] == #[trigger] b.drop_last()[j]);
        assert forall|j: int| 0 <= j < i implies (#[trigger] b[j]).text@ != text by {
            assert(b[j] == b.drop_last()[j]);
            assert(a[j].text@ != text);
        }
        lemma_branch_at(b, text, i);
        assert forall|other: Step| other != Step::Literal(text) implies #[trigger] child(
            opened,
            other,
        ) == child(before, other) by {
            if let Step::Literal(t) = other {
                lemma_branch_for(a, t, 0);
                let k = branch_for(a, t, 0);
                if k < a.len() {
                    assert forall|j: int| 0 <= j < k implies (#[trigger] b[j]).text@ != t by {
                        assert(b[j] == b.drop_last()[j]);
                        assert(a[j].text@ != t);
                    }
                    assert(b[k] == b.drop_last()[k]);
                    lemma_branch_at(b, t, k);
                } else {
                    assert forall|j: int| 0 <= j < b.len() implies (#[trigger] b[j]).text@ != t by {
                        if j < i {
                            assert(b[j] == b.drop_last()[j]);
                            assert(a[j].text@ != t);
                        }
                    }
                    lemma_branch_at(b, t, b.len() as int);
                }
            }
        }
        lemma_opened(before, opened, Step::Literal(text));
        assert forall|j: int| 0 <= j < b.len() implies tidy(#[trigger] b[j].node) by {
            if j < i {
                assert(b[j] == b.drop_last()[j]);
                assert(tidy(a[j].node));
            }
        }
        assert forall|j: int, k: int| 0 <= j < k < b.len() implies #[trigger] b[j].text@
            != #[trigger] b[k].text@ by {
            assert(b[j] == b.drop_last()[j]);
            if k < i {
                assert(b[k] == b.drop_last()[k]);
                assert(a[j].text@ != a[k].text@);
            }
        }
    }
}

/// Changing what lies behind a literal branch.
proof fn lemma_literal_changed(before: Node, after: Node, text: Seq<u8>, i: int)
    requires
        tidy(before),
        same_slots(before, after),
        before.wildcard == after.wildcard,
        before.literals@.len() == after.literals@.len(),
        0 <= i < before.literals@.len(),
        branch_for(before.literals@, text, 0) == i,
        after.literals@[i].text == before.literals@[i].text,
        tidy(after.literals@[i].node),
        forall|j: int|
            0 <= j < before.literals@.len() && j != i ==> #[trigger] after.literals@[j]
                == before.literals@[j],
    ensures
        tidy(after),
        child(after, Step::Literal(text)) == Some(after.literals@[i].node),
        forall|other: Step| other != Step::Literal(text) ==> #[trigger] child(after, other)
            == child(before, other),
{
    let a = before.literals@;
    let b = after.literals@;
    lemma_branch_for(a, text, 0);
    assert forall|j: int| 0 <= j < b.len() implies (#[trigger] b[j]).text@ == a[j].text@ by {
        if j != i {
            assert(b[j] == a[j]);
        }
    }
    assert forall|t: Seq<u8>| #[trigger] branch_for(b, t, 0) == branch_for(a, t, 0) by {
        lemma_branch_for(a, t, 0);
        let k = branch_for(a, t, 0);
        assert forall|j: int| 0 <= j < k implies (#[trigger] b[j]).text@ != t by {
            assert(a[j].text@ != t);
        }
        lemma_branch_at(b, t, k);
    }
    assert forall|other: Step| other != Step::Literal(text) implies #[trigger] child(after, other)
        == child(before, other) by {
        if let Step::Literal(t) = other {
            lemma_branch_for(a, t, 0);
            let k = branch_for(a, t, 0);
            assert(branch_for(b, t, 0) == k);
            if k < a.len() {
                assert(k != i);
                assert(b[k] == a[k]);
            }
        }
    }
    assert forall|j: int| 0 <= j < b.len() implies tidy(#[trigger] b[j].node) by {
        if j != i {
            assert(b[j] == a[j]);
            assert(tidy(a[j].node));
        }
    }
    assert forall|j: int, k: int| 0 <= j < k < b.len() implies #[trigger] b[j].text@
        != #[trigger] b[k].text@ by {
        assert(a[j].text@ != a[k].text@);
    }
}

/// Recursive insert. A catch-all ends the pattern.
pub(crate) fn insert(node: &mut Node, entry: &PathEntry, depth: usize) -> (done: Result<(), SlotConflict>)
    requires
        tidy(*old(node)),
        depth <= entry.pattern.segments@.len(),
    ensures
        match done {
            Ok(_) => {
                &&& tidy(*final(node))
                &&& slot::slot_with_entry(
                    lookup(*old(node), entry_key(*entry, depth as int)),
                    *entry,
                ) is Some
                &&& inserted(*old(node), *final(node), entry_key(*entry, depth as int), *entry)
            },
            Err(_) => slot::slot_with_entry(
                lookup(*old(node), entry_key(*entry, depth as int)),
                *entry,
            ) is None,
        },
    decreases entry.pattern.segments@.len() - depth,
{
    let ghost before = *node;
    let ghost at = entry_key(*entry, depth as int);
    let ghost segments = entry.pattern@.segments;
    if depth == entry.pattern.segments.len() {
        if entry.pattern.trailing_slash {
            let done = node.leaf_slash.add_entry(entry);
            proof {
                if done is Ok {
                    lemma_inserted_here(before, *node, Tail::LeafSlash, *entry);
                }
            }
            done
        } else {
            let done = node.leaf.add_entry(entry);
            proof {
                if done is Ok {
                    lemma_inserted_here(before, *node, Tail::Leaf, *entry);
                }
            }
            done
        }
    } else {
        assert(segments[depth as int] == entry.pattern.segments@[depth as int]@);
        assert(segments.skip(depth as int)[0] == segments[depth as int]);
        assert(segments.skip(depth as int).skip(1) =~= segments.skip(depth + 1));
        assert(at.steps.len() > 0 ==> routing::below(at).steps =~= entry_key(
            *entry,
            depth + 1,
        ).steps);
        match &entry.pattern.segments[depth] {
            Segment::CatchAll => {
                let done = node.catchall.add_entry(entry);
                proof {
                    if done is Ok {
                        lemma_inserted_here(before, *node, Tail::CatchAll, *entry);
                    }
                }
                done
            },
            Segment::Wildcard => {
                if node.wildcard.is_none() {
                    node.wildcard = Some(Box::new(Node::new()));
                }
                let ghost opened = *node;
                proof {
                    lemma_opened(before, opened, Step::Wildcard);
                }
                let done = match &mut node.wildcard {
                    Some(boxed) => insert(boxed, entry, depth + 1),
                    None => Err(SlotConflict),
                };
                proof {
                    if done is Ok {
                        lemma_inserted_below(opened, *node, Step::Wildcard, at, *entry);
                    }
                }
                done
            },
            Segment::Literal(text) => {
                let bytes = text.as_str().as_bytes();
                let i: usize = node.branch_index(bytes);
                let ghost step = Step::Literal(bytes@);
                proof {
                    lemma_branch_for(before.literals@, bytes@, 0);
                }
                if i == node.literals.len() {
                    node.literals.push(Branch { text: copy_bytes(bytes), node: Node::new() });
                }
                let ghost opened = *node;
                proof {
                    if i == before.literals@.len() {
                        assert(opened.literals@.drop_last() =~= before.literals@);
                    }
                    lemma_literal_opened(before, opened, bytes@, i as int);
                }
                let done = insert(&mut node.literals[i].node, entry, depth + 1);
                proof {
                    if done is Ok {
                        lemma_literal_changed(opened, *node, bytes@, i as int);
                        lemma_inserted_below(opened, *node, step, at, *entry);
                    }
                }
                done
            },
        }
    }
}

/// A pattern that a search is told to watch for, with the number of its segments that
/// have been gone through.
#[derive(Clone, Copy)]
pub struct Mark<'a> {
    pub pattern: &'a Pattern,
    pub depth: usize,
}

impl<'a> Mark<'a> {
    pub open spec fn wf(self) -> bool {
        self.depth <= self.pattern.segments@.len()
    }

    /// The terminal that is watched for, as seen from where the search is.
    pub open spec fn key(self) -> Key {
        routing::key_from(
            self.pattern@.segments.skip(self.depth as int),
            self.pattern.trailing_slash,
        )
    }
}

/// The terminal that is watched for, if any.
pub open spec fn marked(mark: Option<Mark<'_>>) -> Option<Key> {
    match mark {
        Some(mark) => Some(mark.key()),
        None => None,
    }
}

/// The terminal that is watched for, as seen from behind a step.
pub open spec fn narrowed(key: Option<Key>, step: Step) -> Option<Key> {
    match key {
        Some(key) => if key.steps.len() > 0 && key.steps[0] == step {
            Some(routing::below(key))
        } else {
            None
        },
        None => None,
    }
}

/// The table that a search goes by: without the terminal watched for, where it is skipped.
pub open spec fn seen(slots: Slots, key: Option<Key>, skip: bool) -> Slots {
    match key {
        Some(key) => if skip {
            routing::without(slots, key)
        } else {
            slots
        },
        None => slots,
    }
}

/// What a search of a table finds: the outcome, and whether the terminal that gives it is
/// the one watched for.
pub open spec fn found(
    slots: Slots,
    key: Option<Key>,
    skip: bool,
    s: Seq<u8>,
    method: http::Method,
) -> Option<(RawMatch, bool)> {
    outcome_at(seen(slots, key, skip), key, routing::find(seen(slots, key, skip), s, method), method)
}

/// The outcome at a terminal that a search ends at.
pub open spec fn outcome_at(
    slots: Slots,
    key: Option<Key>,
    end: Option<Key>,
    method: http::Method,
) -> Option<(RawMatch, bool)> {
    match end {
        Some(end) => Some((routing::decide(slots(end), method)->Some_0, key == Some(end))),
        None => None,
    }
}

/// Looking from behind a step and leaving a terminal out go together.
proof fn lemma_seen_under(slots: Slots, key: Option<Key>, skip: bool, step: Step)
    ensures
        routing::under(seen(slots, key, skip), step) =~= seen(
            routing::under(slots, step),
            narrowed(key, step),
            skip,
        ),
{
    let a = routing::under(seen(slots, key, skip), step);
    let b = seen(routing::under(slots, step), narrowed(key, step), skip);
    assert forall|k: Key| #[trigger] a(k) == b(k) by {
        let outer = routing::behind(step, k);
        assert(routing::below(outer).steps =~= k.steps);
        assert(routing::below(outer) == k);
        if let Some(key) = key {
            if key.steps.len() > 0 && key.steps[0] == step && routing::below(key) == k {
                assert(outer.steps =~= key.steps);
                assert(outer == key);
            }
        }
    }
    assert(a =~= b);
}

proof fn lemma_slots_under(node: Node, step: Step)
    ensures
        match child(node, step) {
            Some(next) => routing::under(slots_of(node), step) =~= slots_of(next),
            None => forall|key: Key| #[trigger]
                routing::under(slots_of(node), step)(key) == routing::unclaimed(),
        },
{
    let a = routing::under(slots_of(node), step);
    assert forall|k: Key| #[trigger] a(k) == match child(node, step) {
        Some(next) => lookup(next, k),
        None => routing::unclaimed(),
    } by {
        let outer = routing::behind(step, k);
        assert(routing::below(outer).steps =~= k.steps);
        assert(routing::below(outer) == k);
        assert(a(k) == lookup(node, outer));
    }
    if let Some(next) = child(node, step) {
        assert(a =~= slots_of(next));
    }
}

/// In an unclaimed region nothing is found.
proof fn lemma_nothing_there(slots: Slots, s: Seq<u8>, method: http::Method)
    requires
        forall|key: Key| #[trigger] slots(key) == routing::unclaimed(),
    ensures
        routing::arrive(slots, s, method) is None,
        routing::find(slots, s, method) is None,
    decreases s.len(),
{
    routing::lemma_next_slash(s, 0);
    let literal = routing::under(slots, Step::Literal(routing::head(s)));
    let wildcard = routing::under(slots, Step::Wildcard);
    assert forall|key: Key| #[trigger] literal(key) == routing::unclaimed() by {
        assert(literal(key) == slots(routing::behind(Step::Literal(routing::head(s)), key)));
    }
    assert forall|key: Key| #[trigger] wildcard(key) == routing::unclaimed() by {
        assert(wildcard(key) == slots(routing::behind(Step::Wildcard, key)));
    }
    assert(slots(routing::here(Tail::Leaf)) == routing::unclaimed());
    assert(slots(routing::here(Tail::LeafSlash)) == routing::unclaimed());
    assert(slots(routing::here(Tail::CatchAll)) == routing::unclaimed());
    if routing::goes_on(s) && routing::rest(s).len() > 0 {
        lemma_nothing_there(slots, routing::rest(s), method);
    }
    assert(routing::arrive(literal, s, method) is None) by {
        assert(literal(routing::here(Tail::Leaf)) == routing::unclaimed());
        assert(literal(routing::here(Tail::LeafSlash)) == routing::unclaimed());
        if routing::goes_on(s) && routing::rest(s).len() > 0 {
            lemma_nothing_there(literal, routing::rest(s), method);
        }
    }
    assert(routing::arrive(wildcard, s, method) is None) by {
        assert(wildcard(routing::here(Tail::Leaf)) == routing::unclaimed());
        assert(wildcard(routing::here(Tail::LeafSlash)) == routing::unclaimed());
        if routing::goes_on(s) && routing::rest(s).len() > 0 {
            lemma_nothing_there(wildcard, routing::rest(s), method);
        }
    }
}

/// The mark behind a literal segment.
fn mark_literal<'a>(mark: Option<Mark<'a>>, segment: &[u8]) -> (next: Option<Mark<'a>>)
    requires
        mark matches Some(m) ==> m.wf(),
    ensures
        next matches Some(m) ==> m.wf(),
        marked(next) == narrowed(marked(mark), Step::Literal(segment@)),
{
    match mark {
        None => None,
        Some(m) => {
            let ghost segments = m.pattern@.segments;
            if m.depth == m.pattern.segments.len() {
                None
            } else {
                proof {
                    lemma_mark_step(m);
                }
                match &m.pattern.segments[m.depth] {
                    Segment::Literal(text) => {
                        if same_bytes(text.as_str().as_bytes(), segment) {
                            Some(Mark { pattern: m.pattern, depth: m.depth + 1 })
                        } else {
                            None
                        }
                    },
                    _ => None,
                }
            }
        },
    }
}

/// The mark behind a wildcard.
fn mark_wildcard<'a>(mark: Option<Mark<'a>>) -> (next: Option<Mark<'a>>)
    requires
        mark matches Some(m) ==> m.wf(),
    ensures
        next matches Some(m) ==> m.wf(),
        marked(next) == narrowed(marked(mark), Step::Wildcard),
{
    match mark {
        None => None,
        Some(m) => {
            if m.depth == m.pattern.segments.len() {
                None
            } else {
                proof {
                    lemma_mark_step(m);
                }
                match &m.pattern.segments[m.depth] {
                    Segment::Wildcard => Some(Mark { pattern: m.pattern, depth: m.depth + 1 }),
                    _ => None,
                }
            }
        },
    }
}

proof fn lemma_mark_step(mark: Mark<'_>)
    requires
        mark.depth < mark.pattern.segments@.len(),
    ensures
        mark.pattern@.segments.skip(mark.depth as int)[0]
            == mark.pattern.segments@[mark.depth as int]@,
        mark.pattern@.segments.skip(mark.depth as int).skip(1) == mark.pattern@.segments.skip(
            mark.depth + 1,
        ),
        mark.key().steps.len() > 0 ==> routing::below(mark.key()) == routing::key_from(
            mark.pattern@.segments.skip(mark.depth + 1),
            mark.pattern.trailing_slash,
        ),
{
    let segments = mark.pattern@.segments;
    assert(segments.skip(mark.depth as int).skip(1) =~= segments.skip(mark.depth + 1));
    if mark.key().steps.len() > 0 {
        assert(routing::below(mark.key()).steps =~= routing::key_from(
            segments.skip(mark.depth + 1),
            mark.pattern.trailing_slash,
        ).steps);
    }
}

/// Whether the mark is a leaf here, with or without a slash.
fn mark_is_leaf(mark: Option<Mark<'_>>, slash: bool) -> (is: bool)
    requires
        mark matches Some(m) ==> m.wf(),
    ensures
        is <==> marked(mark) == Some(
            routing::here(
                if slash {
                    Tail::LeafSlash
                } else {
                    Tail::Leaf
                },
            ),
        ),
{
    match mark {
        None => false,
        Some(m) => {
            if m.depth == m.pattern.segments.len() {
                m.pattern.trailing_slash == slash
            } else {
                proof {
                    lemma_mark_step(m);
                }
                false
            }
        },
    }
}

/// Whether the mark is a catch-all here.
fn mark_is_catch_all(mark: Option<Mark<'_>>) -> (is: bool)
    requires
        mark matches Some(m) ==> m.wf(),
    ensures
        is <==> marked(mark) == Some(routing::here(Tail::CatchAll)),
{
    match mark {
        None => false,
        Some(m) => {
            if m.depth == m.pattern.segments.len() {
                false
            } else {
                proof {
                    lemma_mark_step(m);
                }
                matches!(m.pattern.segments[m.depth], Segment::CatchAll)
            }
        },
    }
}

/// The first slash at or after `from`, or the length.
fn slash_from(path: &[u8], from: usize) -> (at: usize)
    requires
        from <= path@.len(),
    ensures
        at == from + routing::next_slash(path@.skip(from as int), 0),
        from <= at <= path@.len(),
{
    let ghost s = path@.skip(from as int);
    let mut i: usize = from;
    proof {
        routing::lemma_next_slash(s, 0);
    }
    while i < path.len() && path[i] != 0x2F
        invariant
            from <= i <= path@.len(),
            s == path@.skip(from as int),
            routing::next_slash(s, 0) == routing::next_slash(s, i - from),
        decreases path@.len() - i,
    {
        i = i + 1;
    }
    i
}

/// What a terminal decides, unless it is skipped.
fn consult(slot: &MethodSlot, method: &http::Method, here: bool, skip: bool) -> (outcome: Option<
    (RawMatch, bool),
>)
    ensures
        outcome == if here && skip {
            None
        } else {
            match routing::decide(slot@, *method) {
                Some(outcome) => Some((outcome, here)),
                None => None,
            }
        },
{
    if here && skip {
        None
    } else {
        match slot.decide(Some(method)) {
            Some(outcome) => Some((outcome, here)),
            None => None,
        }
    }
}

/// Find what the body of `path` from `from` on selects under `node`. Precedence is
/// literal, wildcard, catch-all, **with backtracking**: a higher-priority branch that
/// dead-ends, or whose terminals all pass the method on, falls through to the next. The
/// terminal of a marked pattern is reported, or left out.
fn search(
    node: &Node,
    path: &[u8],
    from: usize,
    method: &http::Method,
    mark: Option<Mark<'_>>,
    skip: bool,
) -> (outcome: Option<(RawMatch, bool)>)
    requires
        from < path@.len(),
        mark matches Some(m) ==> m.wf(),
    ensures
        outcome == found(
            slots_of(*node),
            marked(mark),
            skip,
            path@.skip(from as int),
            *method,
        ),
    decreases path@.len() - from, 1nat,
{
    let ghost s = path@.skip(from as int);
    let ghost slots = slots_of(*node);
    let ghost table = seen(slots, marked(mark), skip);
    proof {
        routing::lemma_next_slash(s, 0);
    }
    let slash: usize = slash_from(path, from);
    let segment = vstd::slice::slice_subrange(path, from, slash);
    assert(segment@ =~= routing::head(s));
    let ghost literal = Step::Literal(segment@);
    proof {
        lemma_seen_under(slots, marked(mark), skip, literal);
        lemma_seen_under(slots, marked(mark), skip, Step::Wildcard);
        lemma_slots_under(*node, literal);
        lemma_slots_under(*node, Step::Wildcard);
    }
    // 1. literal child: highest priority.
    let index: usize = node.branch_index(segment);
    if index < node.literals.len() {
        let down = descend(
            &node.literals[index].node,
            path,
            from,
            slash,
            method,
            mark_literal(mark, segment),
            skip,
        );
        proof {
            lemma_outcome_behind(table, marked(mark), literal, s, *method);
        }
        if down.is_some() {
            return down;
        }
    } else {
        proof {
            lemma_absent_branch(slots, marked(mark), literal, skip, s, *method);
        }
    }
    // 2. single-segment wildcard: requires a non-empty segment.
    if slash > from {
        if let Some(next) = &node.wildcard {
            let down = descend(next, path, from, slash, method, mark_wildcard(mark), skip);
            proof {
                lemma_outcome_behind(table, marked(mark), Step::Wildcard, s, *method);
            }
            if down.is_some() {
                return down;
            }
        } else {
            proof {
                lemma_absent_branch(slots, marked(mark), Step::Wildcard, skip, s, *method);
            }
        }
    }
    // 3. catch-all: lowest priority; consumes the whole raw remainder.
    consult(&node.catchall, method, mark_is_catch_all(mark), skip)
}

/// After matching a segment, either terminate (with or without a trailing slash) or go on
/// with the remaining body.
fn descend(
    next: &Node,
    path: &[u8],
    from: usize,
    slash: usize,
    method: &http::Method,
    mark: Option<Mark<'_>>,
    skip: bool,
) -> (outcome: Option<(RawMatch, bool)>)
    requires
        from < path@.len(),
        slash == from + routing::next_slash(path@.skip(from as int), 0),
        from <= slash <= path@.len(),
        mark matches Some(m) ==> m.wf(),
    ensures
        ({
            let table = seen(slots_of(*next), marked(mark), skip);
            outcome == outcome_at(
                table,
                marked(mark),
                routing::arrive(table, path@.skip(from as int), *method),
                *method,
            )
        }),
    decreases path@.len() - from, 0nat,
{
    let ghost s = path@.skip(from as int);
    let ghost table = seen(slots_of(*next), marked(mark), skip);
    if slash == path.len() {
        // No `/` followed the segment: the path ended here.
        consult(&next.leaf, method, mark_is_leaf(mark, false), skip)
    } else if slash + 1 == path.len() {
        // A `/` followed, with nothing after it.
        consult(&next.leaf_slash, method, mark_is_leaf(mark, true), skip)
    } else {
        assert(routing::rest(s) =~= path@.skip(slash + 1));
        search(next, path, slash + 1, method, mark, skip)
    }
}

/// An outcome behind a step, seen from in front of it.
proof fn lemma_outcome_behind(
    table: Slots,
    key: Option<Key>,
    step: Step,
    s: Seq<u8>,
    method: http::Method,
)
    ensures
        ({
            let inner = routing::under(table, step);
            let end = routing::arrive(inner, s, method);
            outcome_at(inner, narrowed(key, step), end, method) == match end {
                Some(k) => outcome_at(table, key, Some(routing::behind(step, k)), method),
                None => None,
            }
        }),
{
    let inner = routing::under(table, step);
    if let Some(k) = routing::arrive(inner, s, method) {
        let outer = routing::behind(step, k);
        assert(routing::below(outer).steps =~= k.steps);
        if let Some(key) = key {
            if key.steps.len() > 0 && key.steps[0] == step && routing::below(key) == k {
                assert(outer.steps =~= key.steps);
            }
        }
    }
}

/// Where there is no branch, nothing is found behind the step.
proof fn lemma_absent_branch(
    slots: Slots,
    key: Option<Key>,
    step: Step,
    skip: bool,
    s: Seq<u8>,
    method: http::Method,
)
    requires
        forall|k: Key| #[trigger] routing::under(slots, step)(k) == routing::unclaimed(),
    ensures
        routing::arrive(routing::under(seen(slots, key, skip), step), s, method) is None,
{
    let inner = routing::under(seen(slots, key, skip), step);
    assert forall|k: Key| #[trigger] inner(k) == routing::unclaimed() by {
        assert(routing::under(slots, step)(k) == routing::unclaimed());
    }
    lemma_nothing_there(inner, s, method);
}

/// The outcomes below the first `n` literal branches.
spec fn branch_regions(node: Node, method: http::Method, n: nat) -> Set<RawMatch>
    decreases n,
{
    if n == 0 {
        Set::empty()
    } else {
        branch_regions(node, method, (n - 1) as nat).union(
            routing::region(slots_of(node.literals@[n - 1].node), method, true),
        )
    }
}

/// The outcomes below the wildcard branch.
spec fn wildcard_region(node: Node, method: http::Method) -> Set<RawMatch> {
    match node.wildcard {
        Some(next) => routing::region(slots_of(*next), method, true),
        None => Set::empty(),
    }
}

/// The outcomes at and below a node, but for its bare leaf.
spec fn below_region(node: Node, method: http::Method) -> Set<RawMatch> {
    cover::decided(routing::decide(node.leaf_slash@, method)).union(
        cover::decided(routing::decide(node.catchall@, method)),
    ).union(branch_regions(node, method, node.literals@.len())).union(
        wildcard_region(node, method),
    )
}

proof fn lemma_branch_regions(node: Node, method: http::Method, n: nat)
    requires
        n <= node.literals@.len(),
    ensures
        forall|outcome: RawMatch| #[trigger]
            branch_regions(node, method, n).contains(outcome) <==> exists|i: int|
                0 <= i < n && routing::region(
                    slots_of((#[trigger] node.literals@[i]).node),
                    method,
                    true,
                ).contains(outcome),
    decreases n,
{
    if n > 0 {
        lemma_branch_regions(node, method, (n - 1) as nat);
        assert forall|outcome: RawMatch| #[trigger]
            branch_regions(node, method, n).contains(outcome) <==> exists|i: int|
            0 <= i < n && routing::region(
                slots_of((#[trigger] node.literals@[i]).node),
                method,
                true,
            ).contains(outcome) by {
            let last = node.literals@[n - 1];
            if branch_regions(node, method, (n - 1) as nat).contains(outcome) {
                let i = choose|i: int|
                    0 <= i < n - 1 && routing::region(
                        slots_of((#[trigger] node.literals@[i]).node),
                        method,
                        true,
                    ).contains(outcome);
                assert(0 <= i < n);
            }
        }
    }
}

/// The region of a tree is made of its own slots and the regions of its branches.
proof fn lemma_node_region(node: Node, method: http::Method)
    requires
        tidy(node),
    ensures
        routing::region(slots_of(node), method, false) =~= below_region(node, method),
        routing::region(slots_of(node), method, true) =~= below_region(node, method).union(
            cover::decided(routing::decide(node.leaf@, method)),
        ),
{
    let slots = slots_of(node);
    lemma_branch_regions(node, method, node.literals@.len());
    assert forall|with_leaf: bool, outcome: RawMatch| #[trigger]
        routing::region(slots, method, with_leaf).contains(outcome) implies below_region(
        node,
        method,
    ).contains(outcome) || (with_leaf && routing::decide(node.leaf@, method) == Some(outcome)) by {
        let key = choose|key: Key|
            (with_leaf || key != routing::here(Tail::Leaf)) && routing::decide(
                #[trigger] slots(key),
                method,
            ) == Some(outcome);
        if key.steps.len() == 0 {
            assert(key.steps =~= Seq::empty());
            assert(key == routing::here(key.tail));
        } else {
            lemma_slots_under(node, key.steps[0]);
            let next = child(node, key.steps[0])->Some_0;
            assert(child(node, key.steps[0]) is Some);
            let inner = routing::below(key);
            assert(slots_of(next)(inner) == lookup(node, key));
            assert(routing::region(slots_of(next), method, true).contains(outcome));
            match key.steps[0] {
                Step::Literal(text) => {
                    let i = branch_for(node.literals@, text, 0);
                    lemma_branch_for(node.literals@, text, 0);
                    assert(next == node.literals@[i].node);
                },
                Step::Wildcard => {},
            }
        }
    }
    assert forall|outcome: RawMatch| #[trigger]
        below_region(node, method).contains(outcome) implies routing::region(
        slots,
        method,
        false,
    ).contains(outcome) && routing::region(slots, method, true).contains(outcome) by {
        if routing::decide(node.leaf_slash@, method) == Some(outcome) {
            lemma_in_region(node, routing::here(Tail::LeafSlash), method, outcome);
        } else if routing::decide(node.catchall@, method) == Some(outcome) {
            lemma_in_region(node, routing::here(Tail::CatchAll), method, outcome);
        } else if wildcard_region(node, method).contains(outcome) {
            let next = *(node.wildcard->Some_0);
            let k = choose|k: Key| routing::decide(#[trigger] slots_of(next)(k), method) == Some(
                outcome,
            );
            lemma_in_branch(node, Step::Wildcard, next, k, method, outcome);
        } else {
            let i = choose|i: int|
                0 <= i < node.literals@.len() && routing::region(
                    slots_of((#[trigger] node.literals@[i]).node),
                    method,
                    true,
                ).contains(outcome);
            let next = node.literals@[i].node;
            let text = node.literals@[i].text@;
            lemma_branch_at(node.literals@, text, i);
            let k = choose|k: Key| routing::decide(#[trigger] slots_of(next)(k), method) == Some(
                outcome,
            );
            lemma_in_branch(node, Step::Literal(text), next, k, method, outcome);
        }
    }
    if routing::decide(node.leaf@, method) is Some {
        lemma_leaf_in_region(node, method, routing::decide(node.leaf@, method)->Some_0);
    }
}

proof fn lemma_in_region(node: Node, key: Key, method: http::Method, outcome: RawMatch)
    requires
        key != routing::here(Tail::Leaf),
        routing::decide(lookup(node, key), method) == Some(outcome),
    ensures
        routing::region(slots_of(node), method, false).contains(outcome),
        routing::region(slots_of(node), method, true).contains(outcome),
{
    assert(routing::decide(slots_of(node)(key), method) == Some(outcome));
}

proof fn lemma_leaf_in_region(node: Node, method: http::Method, outcome: RawMatch)
    requires
        routing::decide(node.leaf@, method) == Some(outcome),
    ensures
        routing::region(slots_of(node), method, true).contains(outcome),
{
    let key = routing::here(Tail::Leaf);
    assert(routing::decide(slots_of(node)(key), method) == Some(outcome));
}

proof fn lemma_in_branch(
    node: Node,
    step: Step,
    next: Node,
    k: Key,
    method: http::Method,
    outcome: RawMatch,
)
    requires
        child(node, step) == Some(next),
        routing::decide(lookup(next, k), method) == Some(outcome),
    ensures
        routing::region(slots_of(node), method, false).contains(outcome),
        routing::region(slots_of(node), method, true).contains(outcome),
{
    let outer = routing::behind(step, k);
    assert(routing::below(outer).steps =~= k.steps);
    assert(routing::below(outer) == k);
    assert(outer.steps.len() > 0);
    assert(lookup(node, outer) == lookup(next, k));
    lemma_in_region(node, outer, method, outcome);
}

/// Whether the summaries are those of a table for a method.
pub open spec fn region_summary(cover: RegionCover, slots: Slots, method: http::Method) -> bool {
    &&& cover::summarizes(cover.all, routing::region(slots, method, true))
    &&& cover::summarizes(cover.below, routing::region(slots, method, false))
}

/// No rule of the table has the id of the default.
pub open spec fn genuine_rules(slots: Slots) -> bool {
    forall|key: Key, method: http::Method| #[trigger]
        routing::decide(slots(key), method) != Some(RawMatch::Matched { id: DEFAULT_RULE })
}

/// Every method with a rule of its own is among `methods`.
pub open spec fn knows(slots: Slots, methods: Seq<http::Method>) -> bool {
    forall|key: Key, i: int|
        0 <= i < slots(key).exact.len() ==> methods.contains((#[trigger] slots(key).exact[i]).0)
}

/// Every summary in the tree is right: one for each of `methods`, and one for all others.
pub open spec fn covered(node: Node, methods: Seq<http::Method>) -> bool
    decreases node,
{
    &&& node.method_covers@.len() == methods.len()
    &&& forall|i: int|
        0 <= i < methods.len() ==> region_summary(
            #[trigger] node.method_covers@[i],
            slots_of(node),
            methods[i],
        )
    &&& forall|method: http::Method| #[trigger]
        methods.contains(method) || region_summary(node.other_cover, slots_of(node), method)
    &&& forall|i: int|
        0 <= i < node.literals@.len() ==> covered((#[trigger] node.literals@[i]).node, methods)
    &&& match node.wildcard {
        Some(next) => covered(*next, methods),
        None => true,
    }
}

/// The methods that a summary is for: one, or all that are not among `methods`.
spec fn concerns(
    method: Option<http::Method>,
    methods: Seq<http::Method>,
    m: http::Method,
) -> bool {
    match method {
        Some(only) => m == only,
        None => !methods.contains(m),
    }
}

proof fn lemma_no_own_rule(exact: Seq<(http::Method, RuleId)>, method: http::Method)
    requires
        forall|i: int| 0 <= i < exact.len() ==> (#[trigger] exact[i]).0 != method,
    ensures
        routing::exact_rule(exact, method) is None,
    decreases exact.len(),
{
    if exact.len() > 0 {
        assert forall|i: int| 0 <= i < exact.skip(1).len() implies (#[trigger] exact.skip(1)[i]).0
            != method by {
            assert(exact.skip(1)[i] == exact[i + 1]);
        }
        lemma_no_own_rule(exact.skip(1), method);
    }
}

/// What a slot of the table decides for the methods that a summary is for.
proof fn lemma_slot_concern(
    node: Node,
    key: Key,
    method: Option<http::Method>,
    methods: Seq<http::Method>,
    m: http::Method,
)
    requires
        knows(slots_of(node), methods),
        concerns(method, methods, m),
    ensures
        routing::decide(lookup(node, key), m) == match method {
            Some(only) => routing::decide(lookup(node, key), only),
            None => routing::decide_rule(lookup(node, key).claim, lookup(node, key).any),
        },
{
    if method is None {
        let exact = slots_of(node)(key).exact;
        assert forall|i: int| 0 <= i < exact.len() implies (#[trigger] exact[i]).0 != m by {
            assert(methods.contains(slots_of(node)(key).exact[i].0));
        }
        lemma_no_own_rule(exact, m);
    }
}

proof fn lemma_branch_facts(node: Node, step: Step, methods: Seq<http::Method>)
    requires
        child(node, step) is Some,
    ensures
        genuine_rules(slots_of(node)) ==> genuine_rules(slots_of(child(node, step)->Some_0)),
        knows(slots_of(node), methods) ==> knows(slots_of(child(node, step)->Some_0), methods),
{
    let next = child(node, step)->Some_0;
    lemma_slots_under(node, step);
    assert forall|key: Key| #[trigger] slots_of(next)(key) == slots_of(node)(
        routing::behind(step, key),
    ) by {
        assert(routing::under(slots_of(node), step)(key) == slots_of(next)(key));
    }
    if genuine_rules(slots_of(node)) {
        assert forall|key: Key, method: http::Method| #[trigger]
            routing::decide(slots_of(next)(key), method) != Some(
            RawMatch::Matched { id: DEFAULT_RULE },
        ) by {
            let outer = routing::behind(step, key);
            assert(routing::decide(slots_of(node)(outer), method) != Some(
                RawMatch::Matched { id: DEFAULT_RULE },
            ));
        }
    }
    if knows(slots_of(node), methods) {
        assert forall|key: Key, i: int|
            0 <= i < slots_of(next)(key).exact.len() implies methods.contains(
            (#[trigger] slots_of(next)(key).exact[i]).0,
        ) by {
            let outer = routing::behind(step, key);
            assert(methods.contains(slots_of(node)(outer).exact[i].0));
        }
    }
}

proof fn lemma_genuine_region(slots: Slots, method: http::Method, with_leaf: bool)
    requires
        genuine_rules(slots),
    ensures
        cover::genuine(routing::region(slots, method, with_leaf)),
{
    assert forall|outcome: RawMatch| #[trigger]
        routing::region(slots, method, with_leaf).contains(outcome) implies outcome != (
    RawMatch::Matched { id: DEFAULT_RULE }) by {
        let key = choose|key: Key|
            (with_leaf || key != routing::here(Tail::Leaf)) && routing::decide(
                #[trigger] slots(key),
                method,
            ) == Some(outcome);
        assert(routing::decide(slots(key), method) != Some(
            RawMatch::Matched { id: DEFAULT_RULE },
        ));
    }
}

/// The summary that a node keeps for a method category.
pub open spec fn kept(node: Node, index: Option<usize>) -> RegionCover {
    match index {
        None => node.other_cover,
        Some(i) => node.method_covers@[i as int],
    }
}

impl Node {
    /// The summary for one method category.
    fn cover(&self, index: Option<usize>) -> (cover: RegionCover)
        requires
            index matches Some(i) ==> i < self.method_covers@.len(),
        ensures
            cover == kept(*self, index),
    {
        match index {
            None => self.other_cover,
            Some(i) => self.method_covers[i],
        }
    }
}

/// The method that an index stands for: `None` for all without one.
spec fn indexed(methods: Seq<http::Method>, index: Option<usize>) -> Option<http::Method> {
    match index {
        Some(i) => Some(methods[i as int]),
        None => None,
    }
}

/// Summarizes a node from its own slots and the summaries of its branches.
fn summarize(
    node: &Node,
    methods: &Vec<http::Method>,
    index: Option<usize>,
) -> (cover: RegionCover)
    requires
        tidy(*node),
        genuine_rules(slots_of(*node)),
        knows(slots_of(*node), methods@),
        index matches Some(i) ==> i < methods@.len(),
        forall|i: int|
            0 <= i < node.literals@.len() ==> covered((#[trigger] node.literals@[i]).node, methods@),
        node.wildcard matches Some(next) ==> covered(*next, methods@),
    ensures
        forall|m: http::Method| #[trigger]
            concerns(indexed(methods@, index), methods@, m) ==> region_summary(
                cover,
                slots_of(*node),
                m,
            ),
{
    let ghost only = indexed(methods@, index);
    let method: Option<&http::Method> = match index {
        Some(i) => Some(&methods[i]),
        None => None,
    };
    let slash_cover = node.leaf_slash.cover(method);
    let catch_cover = node.catchall.cover(method);
    let mut below = slash_cover.join(catch_cover);
    proof {
        assert forall|m: http::Method| #[trigger] concerns(only, methods@, m) implies {
            let own = own_region(*node, m);
            cover::summarizes(below, own) && cover::genuine(own)
        } by {
            lemma_slot_concern(*node, routing::here(Tail::LeafSlash), only, methods@, m);
            lemma_slot_concern(*node, routing::here(Tail::CatchAll), only, methods@, m);
            lemma_genuine_slot(*node, routing::here(Tail::LeafSlash), m);
            lemma_genuine_slot(*node, routing::here(Tail::CatchAll), m);
            cover::lemma_join(
                slash_cover,
                catch_cover,
                cover::decided(routing::decide(node.leaf_slash@, m)),
                cover::decided(routing::decide(node.catchall@, m)),
            );
        }
        assert forall|m: http::Method| #[trigger] concerns(only, methods@, m) implies {
            let part = own_region(*node, m).union(branch_regions(*node, m, 0));
            cover::summarizes(below, part) && cover::genuine(part)
        } by {
            assert(own_region(*node, m).union(branch_regions(*node, m, 0)) =~= own_region(
                *node,
                m,
            ));
        }
    }
    let mut i: usize = 0;
    while i < node.literals.len()
        invariant
            i <= node.literals@.len(),
            only == indexed(methods@, index),
            index matches Some(k) ==> k < methods@.len(),
            tidy(*node),
            genuine_rules(slots_of(*node)),
            forall|k: int|
                0 <= k < node.literals@.len() ==> covered(
                    (#[trigger] node.literals@[k]).node,
                    methods@,
                ),
            forall|m: http::Method| #[trigger]
                concerns(only, methods@, m) ==> {
                    let part = own_region(*node, m).union(branch_regions(*node, m, i as nat));
                    cover::summarizes(below, part) && cover::genuine(part)
                },
        decreases node.literals@.len() - i,
    {
        assert(covered(node.literals@[i as int].node, methods@));
        let branch = &node.literals[i];
        let part = branch.node.cover(index).all;
        let ghost before = below;
        below = below.join(part);
        proof {
            let next = node.literals@[i as int].node;
            let text = node.literals@[i as int].text@;
            lemma_branch_at(node.literals@, text, i as int);
            lemma_branch_facts(*node, Step::Literal(text), methods@);
            assert forall|m: http::Method| #[trigger] concerns(only, methods@, m) implies {
                let part = own_region(*node, m).union(branch_regions(*node, m, (i + 1) as nat));
                cover::summarizes(below, part) && cover::genuine(part)
            } by {
                lemma_kept(next, methods@, index, m);
                lemma_genuine_region(slots_of(next), m, true);
                cover::lemma_join(
                    before,
                    part,
                    own_region(*node, m).union(branch_regions(*node, m, i as nat)),
                    routing::region(slots_of(next), m, true),
                );
                assert(own_region(*node, m).union(branch_regions(*node, m, i as nat)).union(
                    routing::region(slots_of(next), m, true),
                ) =~= own_region(*node, m).union(branch_regions(*node, m, (i + 1) as nat)));
            }
        }
        i = i + 1;
    }
    let ghost before = below;
    if let Some(next) = &node.wildcard {
        let part = next.cover(index).all;
        below = below.join(part);
        proof {
            lemma_branch_facts(*node, Step::Wildcard, methods@);
            assert forall|m: http::Method| #[trigger] concerns(only, methods@, m) implies cover::summarizes(
                below,
                below_region(*node, m),
            ) && cover::genuine(below_region(*node, m)) by {
                lemma_kept(**next, methods@, index, m);
                lemma_genuine_region(slots_of(**next), m, true);
                cover::lemma_join(
                    before,
                    part,
                    own_region(*node, m).union(branch_regions(*node, m, i as nat)),
                    routing::region(slots_of(**next), m, true),
                );
            }
        }
    } else {
        proof {
            assert forall|m: http::Method| #[trigger] concerns(only, methods@, m) implies cover::summarizes(
                below,
                below_region(*node, m),
            ) && cover::genuine(below_region(*node, m)) by {
                assert(below_region(*node, m) =~= own_region(*node, m).union(
                    branch_regions(*node, m, i as nat),
                ));
            }
        }
    }
    let leaf_cover = node.leaf.cover(method);
    let all = below.join(leaf_cover);
    proof {
        assert forall|m: http::Method| #[trigger] concerns(only, methods@, m) implies region_summary(
            RegionCover { all, below },
            slots_of(*node),
            m,
        ) by {
            lemma_slot_concern(*node, routing::here(Tail::Leaf), only, methods@, m);
            lemma_genuine_slot(*node, routing::here(Tail::Leaf), m);
            cover::lemma_join(
                below,
                leaf_cover,
                below_region(*node, m),
                cover::decided(routing::decide(node.leaf@, m)),
            );
            lemma_node_region(*node, m);
        }
    }
    RegionCover { all, below }
}

/// The outcomes of a node's own trailing-slash and catch-all rules.
spec fn own_region(node: Node, method: http::Method) -> Set<RawMatch> {
    cover::decided(routing::decide(node.leaf_slash@, method)).union(
        cover::decided(routing::decide(node.catchall@, method)),
    )
}

proof fn lemma_genuine_slot(node: Node, key: Key, method: http::Method)
    requires
        genuine_rules(slots_of(node)),
    ensures
        cover::genuine(cover::decided(routing::decide(lookup(node, key), method))),
{
    assert(routing::decide(slots_of(node)(key), method) != Some(
        RawMatch::Matched { id: DEFAULT_RULE },
    ));
}

proof fn lemma_kept(
    node: Node,
    methods: Seq<http::Method>,
    index: Option<usize>,
    m: http::Method,
)
    requires
        covered(node, methods),
        index matches Some(i) ==> i < methods.len(),
        concerns(indexed(methods, index), methods, m),
    ensures
        region_summary(kept(node, index), slots_of(node), m),
{
    match index {
        Some(i) => {
            assert(region_summary(
                node.method_covers@[i as int],
                slots_of(node),
                methods[i as int],
            ));
        },
        None => {
            assert(methods.contains(m) || region_summary(node.other_cover, slots_of(node), m));
        },
    }
}

/// Trees that stand for the same table.
pub open spec fn same_table(a: Node, b: Node) -> bool {
    forall|key: Key| #[trigger] lookup(a, key) == lookup(b, key)
}

/// Trees whose branches match pairwise stand for the same table.
proof fn lemma_same_table(a: Node, b: Node)
    requires
        same_slots(a, b),
        a.literals@.len() == b.literals@.len(),
        forall|i: int|
            0 <= i < a.literals@.len() ==> {
                &&& (#[trigger] b.literals@[i]).text == a.literals@[i].text
                &&& same_table(b.literals@[i].node, a.literals@[i].node)
                &&& tidy(b.literals@[i].node)
            },
        match (a.wildcard, b.wildcard) {
            (Some(x), Some(y)) => same_table(*y, *x) && tidy(*y),
            (None, None) => true,
            _ => false,
        },
        tidy(a),
    ensures
        same_table(b, a),
        tidy(b),
{
    assert forall|key: Key| #[trigger] lookup(b, key) == lookup(a, key) by {
        if key.steps.len() == 0 {
            assert(a.leaf@ == b.leaf@);
        } else {
            match key.steps[0] {
                Step::Literal(text) => {
                    lemma_branch_for(a.literals@, text, 0);
                    let k = branch_for(a.literals@, text, 0);
                    assert forall|j: int| 0 <= j < k implies (#[trigger] b.literals@[j]).text@
                        != text by {
                        assert(a.literals@[j].text@ != text);
                    }
                    if k < a.literals@.len() {
                        assert(b.literals@[k].text == a.literals@[k].text);
                    }
                    lemma_branch_at(b.literals@, text, k);
                    if k < a.literals@.len() {
                        let x = a.literals@[k].node;
                        let y = b.literals@[k].node;
                        assert(lookup(y, routing::below(key)) == lookup(x, routing::below(key)));
                    }
                },
                Step::Wildcard => {
                    if a.wildcard is Some {
                        let x = *(a.wildcard->Some_0);
                        let y = *(b.wildcard->Some_0);
                        assert(lookup(y, routing::below(key)) == lookup(x, routing::below(key)));
                    }
                },
            }
        }
    }
    assert forall|j: int, k: int| 0 <= j < k < b.literals@.len() implies #[trigger] b.literals@[j].text@
        != #[trigger] b.literals@[k].text@ by {
        assert(b.literals@[j].text == a.literals@[j].text);
        assert(b.literals@[k].text == a.literals@[k].text);
        assert(a.literals@[j].text@ != a.literals@[k].text@);
    }
}

/// Precompute coverage for each explicitly registered method and one shared category for
/// every other method.
pub(crate) fn compute_cover(node: &mut Node, methods: &Vec<http::Method>)
    requires
        tidy(*old(node)),
        genuine_rules(slots_of(*old(node))),
        knows(slots_of(*old(node)), methods@),
    ensures
        covered(*final(node), methods@),
        same_table(*final(node), *old(node)),
        tidy(*final(node)),
    decreases *old(node),
{
    let ghost start = *node;
    let mut i: usize = 0;
    while i < node.literals.len()
        invariant
            i <= node.literals@.len(),
            start == *old(node),
            tidy(start),
            genuine_rules(slots_of(start)),
            knows(slots_of(start), methods@),
            node.literals@.len() == start.literals@.len(),
            same_slots(start, *node),
            node.wildcard == start.wildcard,
            forall|j: int|
                0 <= j < i ==> {
                    &&& (#[trigger] node.literals@[j]).text == start.literals@[j].text
                    &&& same_table(node.literals@[j].node, start.literals@[j].node)
                    &&& tidy(node.literals@[j].node)
                    &&& covered(node.literals@[j].node, methods@)
                },
            forall|j: int|
                i <= j < node.literals@.len() ==> #[trigger] node.literals@[j]
                    == start.literals@[j],
        decreases node.literals@.len() - i,
    {
        let ghost before = node.literals@;
        proof {
            let text = start.literals@[i as int].text@;
            assert(node.literals@[i as int] == start.literals@[i as int]);
            assert(tidy(start.literals@[i as int].node));
            lemma_branch_at(start.literals@, text, i as int);
            lemma_branch_facts(start, Step::Literal(text), methods@);
            assert(decreases_to!(start => start.literals@[i as int].node));
        }
        compute_cover(&mut node.literals[i].node, methods);
        proof {
            assert forall|j: int| 0 <= j < i + 1 implies {
                &&& (#[trigger] node.literals@[j]).text == start.literals@[j].text
                &&& same_table(node.literals@[j].node, start.literals@[j].node)
                &&& tidy(node.literals@[j].node)
                &&& covered(node.literals@[j].node, methods@)
            } by {
                if j < i {
                    assert(node.literals@[j] == before[j]);
                }
            }
            assert forall|j: int| i + 1 <= j < node.literals@.len() implies #[trigger] node.literals@[j]
                == start.literals@[j] by {
                assert(node.literals@[j] == before[j]);
            }
        }
        i = i + 1;
    }
    match &mut node.wildcard {
        Some(next) => {
            proof {
                lemma_branch_facts(start, Step::Wildcard, methods@);
            }
            compute_cover(next, methods);
        },
        None => {},
    }
    let ghost middle = *node;
    proof {
        lemma_same_table(start, middle);
        lemma_facts_carry(start, middle, methods@);
    }
    let other = summarize(node, methods, None);
    let mut covers: Vec<RegionCover> = Vec::new();
    let mut k: usize = 0;
    while k < methods.len()
        invariant
            k <= methods@.len(),
            *node == middle,
            tidy(middle),
            genuine_rules(slots_of(middle)),
            knows(slots_of(middle), methods@),
            forall|j: int|
                0 <= j < middle.literals@.len() ==> covered(
                    (#[trigger] middle.literals@[j]).node,
                    methods@,
                ),
            middle.wildcard matches Some(next) ==> covered(*next, methods@),
            covers@.len() == k,
            forall|j: int|
                0 <= j < k ==> region_summary(
                    #[trigger] covers@[j],
                    slots_of(middle),
                    methods@[j],
                ),
        decreases methods@.len() - k,
    {
        let cover = summarize(node, methods, Some(k));
        assert(concerns(indexed(methods@, Some(k)), methods@, methods@[k as int]));
        covers.push(cover);
        k = k + 1;
    }
    node.other_cover = other;
    node.method_covers = covers;
    proof {
        lemma_caches_apart(middle, *node);
        assert(slots_of(middle) =~= slots_of(*node));
        assert forall|m: http::Method| #[trigger]
            methods@.contains(m) || region_summary(node.other_cover, slots_of(*node), m) by {
            assert(concerns(indexed(methods@, None), methods@, m) || methods@.contains(m));
        }
    }
}

pub proof fn lemma_facts_carry(a: Node, b: Node, methods: Seq<http::Method>)
    requires
        same_table(b, a),
        genuine_rules(slots_of(a)),
        knows(slots_of(a), methods),
    ensures
        genuine_rules(slots_of(b)),
        knows(slots_of(b), methods),
{
    assert(slots_of(b) =~= slots_of(a)) by {
        assert forall|key: Key| #[trigger] slots_of(b)(key) == slots_of(a)(key) by {
            assert(lookup(b, key) == lookup(a, key));
        }
    }
}

/// The summaries are no part of the table.
proof fn lemma_caches_apart(a: Node, b: Node)
    requires
        same_slots(a, b),
        a.literals == b.literals,
        a.wildcard == b.wildcard,
        tidy(a),
    ensures
        same_table(b, a),
        tidy(b),
        slots_of(a) =~= slots_of(b),
{
    assert forall|key: Key| #[trigger] lookup(b, key) == lookup(a, key) by {
        if key.steps.len() == 0 {
            assert(a.leaf@ == b.leaf@);
        } else {
            assert(child(b, key.steps[0]) == child(a, key.steps[0]));
        }
    }
    assert forall|key: Key| #[trigger] slots_of(b)(key) == slots_of(a)(key) by {
        assert(lookup(b, key) == lookup(a, key));
    }
}

/// A `path -> RuleId` matcher over the route grammar.
pub struct Router {
    pub root: Node,
    /// Every method with a rule of its own.
    pub methods: Vec<http::Method>,
}

/// The views of some byte slices.
pub open spec fn views(parts: Seq<&[u8]>) -> Seq<Seq<u8>> {
    parts.map_values(|part: &[u8]| part@)
}

/// The non-empty segments of an anchor.
fn anchor_parts<'a>(anchor: &'a [u8]) -> (parts: Vec<&'a [u8]>)
    ensures
        views(parts@) == routing::anchor_segments(anchor@),
{
    let mut parts: Vec<&'a [u8]> = Vec::new();
    let mut from: usize = 0;
    let ghost whole = anchor@;
    assert(whole.skip(0) =~= whole);
    assert(views(parts@) =~= Seq::empty());
    while from < anchor.len()
        invariant
            from <= anchor@.len(),
            whole == anchor@,
            routing::anchor_segments(whole) == views(parts@) + routing::anchor_segments(
                whole.skip(from as int),
            ),
        decreases anchor@.len() - from,
    {
        let ghost s = whole.skip(from as int);
        let ghost done = views(parts@);
        let slash: usize = slash_from(anchor, from);
        proof {
            routing::lemma_next_slash(s, 0);
        }
        if slash > from {
            let part: &'a [u8] = vstd::slice::slice_subrange(anchor, from, slash);
            assert(part@ =~= routing::head(s));
            parts.push(part);
            assert(views(parts@) =~= done.push(routing::head(s)));
        }
        if slash == anchor.len() {
            from = slash;
            proof {
                assert(whole.skip(from as int) =~= Seq::empty());
                assert(done + routing::anchor_segments(s) =~= views(parts@));
                assert(views(parts@) + Seq::empty() =~= views(parts@));
            }
        } else {
            from = slash + 1;
            proof {
                assert(routing::rest(s) =~= whole.skip(from as int));
                assert(done + routing::anchor_segments(s) =~= views(parts@)
                    + routing::anchor_segments(whole.skip(from as int)));
            }
        }
    }
    assert(whole.skip(from as int).len() == 0);
    assert(views(parts@) + Seq::empty() =~= views(parts@));
    parts
}

/// In an unclaimed region there are no outcomes.
proof fn lemma_walk_unclaimed(slots: Slots, segs: Seq<Seq<u8>>, method: http::Method)
    requires
        forall|key: Key| #[trigger] slots(key) == routing::unclaimed(),
    ensures
        routing::walk(slots, segs, method).0 =~= Set::<RawMatch>::empty(),
        !routing::walk(slots, segs, method).1,
    decreases segs.len(),
{
    assert(slots(routing::here(Tail::CatchAll)) == routing::unclaimed());
    if segs.len() == 0 {
        assert forall|outcome: RawMatch| !(#[trigger] routing::region(
            slots,
            method,
            false,
        ).contains(outcome)) by {
            if routing::region(slots, method, false).contains(outcome) {
                let key = choose|key: Key|
                    key != routing::here(Tail::Leaf) && routing::decide(
                        #[trigger] slots(key),
                        method,
                    ) == Some(outcome);
                assert(slots(key) == routing::unclaimed());
            }
        }
    } else {
        let literal = routing::under(slots, Step::Literal(segs[0]));
        let wildcard = routing::under(slots, Step::Wildcard);
        assert forall|key: Key| #[trigger] literal(key) == routing::unclaimed() by {
            assert(literal(key) == slots(routing::behind(Step::Literal(segs[0]), key)));
        }
        assert forall|key: Key| #[trigger] wildcard(key) == routing::unclaimed() by {
            assert(wildcard(key) == slots(routing::behind(Step::Wildcard, key)));
        }
        lemma_walk_unclaimed(literal, segs.skip(1), method);
        lemma_walk_unclaimed(wildcard, segs.skip(1), method);
    }
}

/// What lies behind a step without a branch adds nothing.
proof fn lemma_walk_absent(node: Node, step: Step, segs: Seq<Seq<u8>>, method: http::Method)
    requires
        child(node, step) is None,
    ensures
        routing::walk(routing::under(slots_of(node), step), segs, method) == (
            Set::<RawMatch>::empty(),
            false,
        ),
{
    lemma_slots_under(node, step);
    lemma_walk_unclaimed(routing::under(slots_of(node), step), segs, method);
}

/// One step of the [`Router::anchor_cover`] descent: the cover reachable from `node` for
/// paths whose next concrete segments are those from `i` on, and whether **every** such
/// path is decided by a terminal.
///
/// Mirrors the matcher's precedence with short-circuit: once a tier is complete, later
/// tiers are unreachable and must not join the cover.
fn walk_cover(
    node: &Node,
    parts: &Vec<&[u8]>,
    i: usize,
    method: &http::Method,
    index: Option<usize>,
    Ghost(methods): Ghost<Seq<http::Method>>,
) -> (walked: (Cover, bool))
    requires
        i <= parts@.len(),
        tidy(*node),
        genuine_rules(slots_of(*node)),
        knows(slots_of(*node), methods),
        covered(*node, methods),
        index matches Some(k) ==> k < methods.len(),
        concerns(indexed(methods, index), methods, *method),
    ensures
        ({
            let outcomes = routing::walk(
                slots_of(*node),
                views(parts@).skip(i as int),
                *method,
            );
            &&& cover::summarizes(walked.0, outcomes.0)
            &&& cover::genuine(outcomes.0)
            &&& walked.1 == outcomes.1
        }),
    decreases parts@.len() - i,
{
    let ghost slots = slots_of(*node);
    let ghost segs = views(parts@).skip(i as int);
    if i == parts.len() {
        proof {
            lemma_kept(*node, methods, index, *method);
            lemma_genuine_region(slots, *method, false);
        }
        let complete = node.catchall.decide(Some(method)).is_some() && node.leaf_slash.decide(
            Some(method),
        ).is_some();
        return (node.cover(index).below, complete);
    }
    let segment: &[u8] = parts[i];
    proof {
        assert(segs[0] == segment@);
        assert(segs.skip(1) =~= views(parts@).skip(i + 1));
    }
    let ghost literal = routing::walk(
        routing::under(slots, Step::Literal(segment@)),
        segs.skip(1),
        *method,
    );
    let ghost wildcard = routing::walk(
        routing::under(slots, Step::Wildcard),
        segs.skip(1),
        *method,
    );
    let mut cover = Cover::Empty;
    let branch: usize = node.branch_index(segment);
    if branch < node.literals.len() {
        proof {
            lemma_branch_facts(*node, Step::Literal(segment@), methods);
            lemma_slots_under(*node, Step::Literal(segment@));
            assert(tidy(node.literals@[branch as int].node));
            assert(covered(node.literals@[branch as int].node, methods));
        }
        let (part, done) = walk_cover(
            &node.literals[branch].node,
            parts,
            i + 1,
            method,
            index,
            Ghost(methods),
        );
        cover = part;
        if done {
            return (cover, true);
        }
    } else {
        proof {
            lemma_walk_absent(*node, Step::Literal(segment@), segs.skip(1), *method);
        }
    }
    assert(cover::summarizes(cover, literal.0) && cover::genuine(literal.0) && !literal.1);
    let ghost first = cover;
    if let Some(next) = &node.wildcard {
        proof {
            lemma_branch_facts(*node, Step::Wildcard, methods);
            lemma_slots_under(*node, Step::Wildcard);
        }
        let (part, done) = walk_cover(next, parts, i + 1, method, index, Ghost(methods));
        cover = cover.join(part);
        proof {
            cover::lemma_join(first, part, literal.0, wildcard.0);
        }
        if done {
            return (cover, true);
        }
    } else {
        proof {
            lemma_walk_absent(*node, Step::Wildcard, segs.skip(1), *method);
            assert(literal.0.union(wildcard.0) =~= literal.0);
        }
    }
    let ghost both = literal.0.union(wildcard.0);
    assert(cover::summarizes(cover, both) && cover::genuine(both));
    let own = node.catchall.cover(Some(method));
    let decision = node.catchall.decide(Some(method));
    proof {
        lemma_genuine_slot(*node, routing::here(Tail::CatchAll), *method);
        cover::lemma_join(cover, own, both, cover::decided(routing::decide(node.catchall@, *method)));
        if let Some(outcome) = routing::decide(node.catchall@, *method) {
            assert(both.union(cover::decided(Some(outcome))) =~= both.insert(outcome));
        } else {
            assert(both.union(cover::decided(None)) =~= both);
        }
    }
    (cover.join(own), decision.is_some())
}

impl Router {
    /// The table that the router stands for.
    pub open spec fn slots(&self) -> Slots {
        slots_of(self.root)
    }

    /// The tree is tidy, and its summaries are right.
    pub open spec fn wf(&self) -> bool {
        &&& tidy(self.root)
        &&& genuine_rules(self.slots())
        &&& knows(self.slots(), self.methods@)
        &&& covered(self.root, self.methods@)
    }

    /// The position of a method among those with a rule of their own.
    fn method_index(&self, method: &http::Method) -> (index: Option<usize>)
        ensures
            match index {
                Some(i) => i < self.methods@.len() && self.methods@[i as int] == *method,
                None => !self.methods@.contains(*method),
            },
    {
        let mut i: usize = 0;
        while i < self.methods.len()
            invariant
                i <= self.methods@.len(),
                forall|j: int| 0 <= j < i ==> self.methods@[j] != *method,
            decreases self.methods@.len() - i,
        {
            if self.methods[i] == *method {
                return Some(i);
            }
            i = i + 1;
        }
        None
    }

    /// The [`Cover`] of **every outcome reachable by any path extending `anchor`**, a
    /// clean, `/`-terminated prefix (`"/"`, `"/files/"`, ...), for the request method. If
    /// it is the cover of what the raw path selects, no reinterpretation confined to the
    /// anchor's subtree can relocate the request.
    pub fn anchor_cover(&self, anchor: &str, method: &http::Method) -> (cover: Cover)
        requires
            self.wf(),
        ensures
            cover::summarizes(
                cover,
                routing::anchored(
                    self.slots(),
                    routing::anchor_segments(anchor.spec_bytes()),
                    *method,
                ),
            ),
            cover::genuine(
                routing::anchored(
                    self.slots(),
                    routing::anchor_segments(anchor.spec_bytes()),
                    *method,
                ),
            ),
    {
        let index = self.method_index(method);
        let parts = anchor_parts(anchor.as_bytes());
        let ghost segs = routing::anchor_segments(anchor.spec_bytes());
        let ghost default = Set::<RawMatch>::empty().insert(RawMatch::Default);
        proof {
            assert(views(parts@).len() == parts@.len());
            assert(default.contains(RawMatch::Default));
        }
        if parts.len() > 0 {
            assert(views(parts@).skip(0) =~= segs);
            let (cover, complete) = walk_cover(
                &self.root,
                &parts,
                0,
                method,
                index,
                Ghost(self.methods@),
            );
            if complete {
                cover
            } else {
                proof {
                    let outcomes = routing::walk(self.slots(), segs, *method).0;
                    cover::lemma_join(cover, Cover::Uniform(DEFAULT_RULE), outcomes, default);
                    assert(outcomes.union(default) =~= outcomes.insert(RawMatch::Default));
                }
                cover.with(DEFAULT_RULE)
            }
        } else {
            // Root anchor: the empty remainder is the bare `/`, which claims the root
            // leaf, so the *whole* table participates, own leaf included.
            proof {
                lemma_kept(self.root, self.methods@, index, *method);
                lemma_genuine_region(self.slots(), *method, true);
            }
            let complete = self.root.leaf.decide(Some(method)).is_some()
                && self.root.catchall.decide(Some(method)).is_some();
            let cover = self.root.cover(index).all;
            if complete {
                cover
            } else {
                proof {
                    let outcomes = routing::region(self.slots(), *method, true);
                    cover::lemma_join(cover, Cover::Uniform(DEFAULT_RULE), outcomes, default);
                    assert(outcomes.union(default) =~= outcomes.insert(RawMatch::Default));
                }
                cover.with(DEFAULT_RULE)
            }
        }
    }

    /// What a raw-byte path selects for a method.
    pub fn identity(&self, path: &[u8], method: &http::Method) -> (outcome: RawMatch)
        ensures
            outcome == routing::identity(self.slots(), path@, *method),
    {
        let ghost slots = self.slots();
        if path.len() == 0 || path[0] != 0x2F {
            return RawMatch::Default;
        }
        if path.len() == 1 {
            // The bare root path `/` claims the root leaf.
            let leaf = self.root.leaf.decide(Some(method));
            proof {
                lemma_root_identity(slots, path@, *method);
            }
            return match leaf {
                Some(outcome) => outcome,
                None => RawMatch::Default,
            };
        }
        proof {
            routing::lemma_find_identity(slots, path@, *method);
        }
        match search(&self.root, path, 1, method, None, false) {
            Some((outcome, _)) => outcome,
            None => RawMatch::Default,
        }
    }

    /// The matched rule id for a raw-byte path and a specific method.
    pub fn resolve_bytes(&self, path: &[u8], method: &http::Method) -> (rule: Option<RuleId>)
        ensures
            rule == match routing::identity(self.slots(), path@, *method) {
                RawMatch::Matched { id } => Some(id),
                _ => None,
            },
    {
        self.identity(path, method).id()
    }

    /// The matched rule id for a specific method.
    pub fn resolve(&self, path: &str, method: &http::Method) -> (rule: Option<RuleId>)
        ensures
            rule == match routing::identity(self.slots(), path.spec_bytes(), *method) {
                RawMatch::Matched { id } => Some(id),
                _ => None,
            },
    {
        self.identity(path.as_bytes(), method).id()
    }
}

/// The outcomes of a region, one by one.
pub struct AnchorIdentities {
    /// The ids of the rules among them, sorted and unique.
    pub registrations: Vec<RuleId>,
    /// Whether the default is among them.
    pub includes_default: bool,
    /// Whether a denial of the method is among them.
    pub includes_method_denial: bool,
}

impl AnchorIdentities {
    /// The outcomes that are listed.
    pub open spec fn outcomes(&self) -> Set<RawMatch> {
        Set::new(
            |outcome: RawMatch|
                match outcome {
                    RawMatch::Matched { id } => self.registrations@.contains(id),
                    RawMatch::Default => self.includes_default,
                    RawMatch::MethodDenied => self.includes_method_denial,
                },
        )
    }

    /// The ids are sorted, and none occurs twice.
    pub open spec fn sorted(&self) -> bool {
        forall|i: int, j: int|
            0 <= i < j < self.registrations@.len() ==> #[trigger] self.registrations@[i]
                < #[trigger] self.registrations@[j]
    }

    fn none() -> (list: Self)
        ensures
            list.sorted(),
            list.outcomes() =~= Set::<RawMatch>::empty(),
    {
        AnchorIdentities {
            registrations: Vec::new(),
            includes_default: false,
            includes_method_denial: false,
        }
    }

    /// Adds an outcome.
    fn note(&mut self, outcome: RawMatch)
        requires
            old(self).sorted(),
        ensures
            final(self).sorted(),
            final(self).outcomes() =~= old(self).outcomes().insert(outcome),
    {
        match outcome {
            RawMatch::Default => {
                self.includes_default = true;
            },
            RawMatch::MethodDenied => {
                self.includes_method_denial = true;
            },
            RawMatch::Matched { id } => {
                let ghost before = self.registrations@;
                let mut i: usize = 0;
                while i < self.registrations.len() && self.registrations[i] < id
                    invariant
                        i <= self.registrations@.len(),
                        self.registrations@ == before,
                        *self == *old(self),
                        forall|j: int| 0 <= j < i ==> #[trigger] before[j] < id,
                    decreases self.registrations@.len() - i,
                {
                    i = i + 1;
                }
                if i < self.registrations.len() && self.registrations[i] == id {
                    assert(before.contains(id));
                    return ;
                }
                self.registrations.insert(i, id);
                proof {
                    let after = self.registrations@;
                    assert forall|j: int, k: int| 0 <= j < k < after.len() implies #[trigger] after[j]
                        < #[trigger] after[k] by {
                        if k == i {
                            assert(after[j] == before[j]);
                        } else if j == i {
                            assert(after[k] == before[k - 1]);
                            assert(k == i + 1 || before[i as int] < before[k - 1]);
                        } else {
                            let j0 = if j < i {
                                j
                            } else {
                                j - 1
                            };
                            let k0 = if k < i {
                                k
                            } else {
                                k - 1
                            };
                            assert(before[j0] < before[k0]);
                        }
                    }
                    assert forall|x: RuleId| #[trigger] after.contains(x) <==> before.contains(x)
                        || x == id by {
                        if after.contains(x) {
                            let j = after.index_of(x);
                            if j < i {
                                assert(before[j] == x);
                            } else if j > i {
                                assert(before[j - 1] == x);
                            }
                        }
                        if before.contains(x) {
                            let j = before.index_of(x);
                            if j < i {
                                assert(after[j] == x);
                            } else {
                                assert(after[j + 1] == x);
                            }
                        }
                        assert(after[i as int] == id);
                    }
                }
            },
        }
    }

    /// Adds what a terminal decides.
    fn note_slot(&mut self, slot: &MethodSlot, method: &http::Method)
        requires
            old(self).sorted(),
        ensures
            final(self).sorted(),
            final(self).outcomes() =~= old(self).outcomes().union(
                cover::decided(routing::decide(slot@, *method)),
            ),
    {
        if let Some(outcome) = slot.decide(Some(method)) {
            self.note(outcome);
        }
    }
}

/// Expand cached summaries only on the optional explanation path.
fn collect_identities(node: &Node, method: &http::Method, leaf: bool, list: &mut AnchorIdentities)
    requires
        tidy(*node),
        old(list).sorted(),
    ensures
        final(list).sorted(),
        final(list).outcomes() =~= old(list).outcomes().union(
            routing::region(slots_of(*node), *method, leaf),
        ),
    decreases node,
{
    let ghost start = list.outcomes();
    list.note_slot(&node.leaf_slash, method);
    list.note_slot(&node.catchall, method);
    let ghost own = own_region(*node, *method);
    assert(list.outcomes() =~= start.union(own).union(branch_regions(*node, *method, 0)));
    let mut i: usize = 0;
    while i < node.literals.len()
        invariant
            i <= node.literals@.len(),
            tidy(*node),
            list.sorted(),
            own == own_region(*node, *method),
            list.outcomes() =~= start.union(own).union(branch_regions(*node, *method, i as nat)),
        decreases node.literals@.len() - i,
    {
        let branch = &node.literals[i];
        assert(tidy(node.literals@[i as int].node));
        assert(decreases_to!(node => node.literals@[i as int].node));
        collect_identities(&branch.node, method, true, list);
        i = i + 1;
    }
    if let Some(next) = &node.wildcard {
        collect_identities(next, method, true, list);
    }
    assert(list.outcomes() =~= start.union(below_region(*node, *method)));
    if leaf {
        list.note_slot(&node.leaf, method);
    }
    proof {
        lemma_node_region(*node, *method);
    }
}

/// Collects what [`walk_cover`] summarizes.
fn walk_identities(
    node: &Node,
    parts: &Vec<&[u8]>,
    i: usize,
    method: &http::Method,
    list: &mut AnchorIdentities,
) -> (complete: bool)
    requires
        i <= parts@.len(),
        tidy(*node),
        old(list).sorted(),
    ensures
        final(list).sorted(),
        ({
            let outcomes = routing::walk(
                slots_of(*node),
                views(parts@).skip(i as int),
                *method,
            );
            &&& final(list).outcomes() =~= old(list).outcomes().union(outcomes.0)
            &&& complete == outcomes.1
        }),
    decreases parts@.len() - i,
{
    let ghost start = list.outcomes();
    let ghost slots = slots_of(*node);
    let ghost segs = views(parts@).skip(i as int);
    if i == parts.len() {
        collect_identities(node, method, false, list);
        return node.catchall.decide(Some(method)).is_some() && node.leaf_slash.decide(
            Some(method),
        ).is_some();
    }
    let segment: &[u8] = parts[i];
    proof {
        assert(segs[0] == segment@);
        assert(segs.skip(1) =~= views(parts@).skip(i + 1));
    }
    let ghost literal = routing::walk(
        routing::under(slots, Step::Literal(segment@)),
        segs.skip(1),
        *method,
    );
    let ghost wildcard = routing::walk(
        routing::under(slots, Step::Wildcard),
        segs.skip(1),
        *method,
    );
    let branch: usize = node.branch_index(segment);
    if branch < node.literals.len() {
        proof {
            lemma_slots_under(*node, Step::Literal(segment@));
            assert(tidy(node.literals@[branch as int].node));
        }
        if walk_identities(&node.literals[branch].node, parts, i + 1, method, list) {
            return true;
        }
    } else {
        proof {
            lemma_walk_absent(*node, Step::Literal(segment@), segs.skip(1), *method);
        }
    }
    assert(list.outcomes() =~= start.union(literal.0) && !literal.1);
    if let Some(next) = &node.wildcard {
        proof {
            lemma_slots_under(*node, Step::Wildcard);
        }
        if walk_identities(next, parts, i + 1, method, list) {
            assert(list.outcomes() =~= start.union(literal.0.union(wildcard.0)));
            return true;
        }
    } else {
        proof {
            lemma_walk_absent(*node, Step::Wildcard, segs.skip(1), *method);
        }
    }
    assert(list.outcomes() =~= start.union(literal.0.union(wildcard.0)));
    list.note_slot(&node.catchall, method);
    proof {
        if let Some(outcome) = routing::decide(node.catchall@, *method) {
            assert(start.union(literal.0.union(wildcard.0)).union(cover::decided(Some(outcome)))
                =~= start.union(literal.0.union(wildcard.0).insert(outcome)));
        } else {
            assert(start.union(literal.0.union(wildcard.0)).union(cover::decided(None))
                =~= start.union(literal.0.union(wildcard.0)));
        }
    }
    node.catchall.decide(Some(method)).is_some()
}

impl Router {
    /// Expand the same conservative coverage used by `anchor_cover` for diagnostics.
    pub fn anchor_identities(&self, anchor: &str, method: &http::Method) -> (list:
        AnchorIdentities)
        requires
            self.wf(),
        ensures
            list.sorted(),
            list.outcomes() =~= routing::anchored(
                self.slots(),
                routing::anchor_segments(anchor.spec_bytes()),
                *method,
            ),
    {
        let parts = anchor_parts(anchor.as_bytes());
        let ghost segs = routing::anchor_segments(anchor.spec_bytes());
        assert(views(parts@).len() == parts@.len());
        let mut list = AnchorIdentities::none();
        let complete = if parts.len() > 0 {
            assert(views(parts@).skip(0) =~= segs);
            walk_identities(&self.root, &parts, 0, method, &mut list)
        } else {
            collect_identities(&self.root, method, true, &mut list);
            self.root.leaf.decide(Some(method)).is_some() && self.root.catchall.decide(
                Some(method),
            ).is_some()
        };
        if !complete {
            list.note(RawMatch::Default);
        }
        list
    }

    /// The rule hidden by a pattern's terminal: `path` stops at the terminal of `pattern`,
    /// the terminal has no rule for `method`, and without the terminal a rule would be
    /// selected.
    pub fn method_gap(&self, path: &str, method: &http::Method, pattern: &Pattern) -> (hidden: Option<
        RuleId,
    >)
        ensures
            hidden == gap_rule(
                self.slots(),
                path.spec_bytes(),
                *method,
                routing::key_of(pattern@),
            ),
    {
        let path = path.as_bytes();
        let ghost slots = self.slots();
        let ghost key = routing::key_of(pattern@);
        if path.len() < 2 || path[0] != 0x2F {
            proof {
                lemma_no_root_gap(slots, path@, *method, key);
            }
            return None;
        }
        let mark = Mark { pattern, depth: 0 };
        assert(pattern@.segments.skip(0) =~= pattern@.segments);
        assert(mark.key() == key);
        proof {
            routing::lemma_find_identity(slots, path@, *method);
            routing::lemma_find_identity(routing::without(slots, key), path@, *method);
            lemma_gap_selects(slots, path@, *method, key);
        }
        let stop = search(&self.root, path, 1, method, Some(mark), false);
        match stop {
            Some((outcome, true)) => match outcome {
                RawMatch::Matched { .. } => None,
                _ => match search(&self.root, path, 1, method, Some(mark), true) {
                    Some((hidden, _)) => hidden.id(),
                    None => None,
                },
            },
            _ => None,
        }
    }
}

/// The rule that a terminal hides: the path selects the terminal, which has no rule for
/// the method; without the terminal, the path would select the rule.
pub open spec fn gap_rule(
    slots: Slots,
    path: Seq<u8>,
    method: http::Method,
    key: Key,
) -> Option<RuleId> {
    if routing::selects(slots, key, path, method) && !(routing::identity(slots, path, method) is Matched) {
        match routing::identity(routing::without(slots, key), path, method) {
            RawMatch::Matched { id } => Some(id),
            _ => None,
        }
    } else {
        None
    }
}

proof fn lemma_gap_selects(slots: Slots, path: Seq<u8>, method: http::Method, key: Key)
    requires
        path.len() > 1,
        path[0] == 0x2F,
    ensures
        routing::selects(slots, key, path, method) <==> routing::find(slots, path.skip(1), method)
            == Some(key),
{
    routing::lemma_find_identity(slots, path, method);
    if routing::selects(slots, key, path, method) {
        assert(routing::contends(slots, key, path, method));
        match routing::find(slots, path.skip(1), method) {
            Some(end) => {
                routing::lemma_one_selected(slots, key, end, path, method);
            },
            None => {},
        }
    }
}

/// At the root, and on what is no path, nothing is hidden.
proof fn lemma_no_root_gap(slots: Slots, path: Seq<u8>, method: http::Method, key: Key)
    requires
        path.len() < 2 || path[0] != 0x2F,
    ensures
        gap_rule(slots, path, method, key) is None,
{
    let fewer = routing::without(slots, key);
    if routing::selects(slots, key, path, method) {
        assert(routing::contends(slots, key, path, method));
        assert forall|other: Key| !routing::selects(fewer, other, path, method) by {
            if routing::selects(fewer, other, path, method) {
                assert(routing::contends(fewer, other, path, method));
            }
        }
    }
}

/// What the bare root path selects.
proof fn lemma_root_identity(slots: Slots, path: Seq<u8>, method: http::Method)
    requires
        path.len() == 1,
        path[0] == 0x2F,
    ensures
        routing::identity(slots, path, method) == match routing::decide(
            slots(routing::here(Tail::Leaf)),
            method,
        ) {
            Some(outcome) => outcome,
            None => RawMatch::Default,
        },
{
    let leaf = routing::here(Tail::Leaf);
    if routing::decide(slots(leaf), method) is Some {
        assert(routing::selects(slots, leaf, path, method));
        routing::lemma_identity(slots, leaf, path, method);
    } else {
        assert forall|key: Key| !routing::selects(slots, key, path, method) by {
            if routing::selects(slots, key, path, method) {
                assert(routing::contends(slots, key, path, method));
            }
        }
    }
}

} // verus!
