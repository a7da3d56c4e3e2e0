//! The merge engine: the decisions of a merge run, one read at a time.
//!
//! The engine neither reads nor writes. It tells its driver what to do next,
//! an [`Action`], and the driver hands back what the read gave.

use vstd::prelude::*;
use crate::error::MrgError;
use crate::extract::{names_of, KeySet};
use crate::frontier::{Frontier, Slot};
use crate::source::{entry_of, pull, warning_of, Entry, EntryView};

verus! {

/// What the driver of a merge does next.
pub enum Action {
    /// Read the next line of `source` and hand the outcome to the engine.
    Read { source: usize },
    /// The line last handed in was passed over: report `warning`, then read
    /// the next line of `source` and hand the outcome to the engine.
    Skip { source: usize, warning: String },
    /// Write `line` and a line feed to the sink; if that fails the run ends
    /// with the failure. Then read the next line of `source` and hand the
    /// outcome to the engine.
    Write { source: usize, line: String },
    /// The merge is complete.
    Finish,
}

/// The mathematical content of an action.
pub enum ActionView {
    Read { source: int },
    Skip { source: int, warning: Seq<char> },
    Write { source: int, line: Seq<char> },
    Finish,
}

impl View for Action {
    type V = ActionView;

    open spec fn view(&self) -> ActionView {
        match *self {
            Action::Read { source } => ActionView::Read { source: source as int },
            Action::Skip { source, warning } => ActionView::Skip {
                source: source as int,
                warning: warning@,
            },
            Action::Write { source, line } => ActionView::Write { source: source as int, line: line@ },
            Action::Finish => ActionView::Finish,
        }
    }
}

/// The state of a merge.
pub struct Merger {
    keys: KeySet,
    heads: Vec<Option<Entry>>,
    frontier: Frontier,
    primed: usize,
    turn: Option<usize>,
}

/// The mathematical content of the state of a merge.
pub struct MergerView {
    /// The key set of the run.
    pub keys: Set<Seq<char>>,
    /// For each source, the entry that it holds at its head, if any.
    pub heads: Seq<Option<EntryView>>,
    /// How many sources have been pulled to their first entry, or to their
    /// end.
    pub primed: int,
    /// The source whose next line the engine waits for; none once the merge
    /// is complete.
    pub turn: Option<int>,
}

/// The view of a head.
pub open spec fn head_view(head: Option<Entry>) -> Option<EntryView> {
    match head {
        Some(entry) => Some(entry@),
        None => None,
    }
}

impl MergerView {
    /// The number of sources.
    pub open spec fn sources(self) -> int {
        self.heads.len() as int
    }

    /// The engine waits for the next line of source `i`.
    pub open spec fn awaits(self, i: int) -> bool {
        self.turn == Some(i)
    }

    /// No source holds an entry.
    pub open spec fn drained(self) -> bool {
        forall|i: int| 0 <= i < self.heads.len() ==> self.heads[i] is None
    }

    /// What holds of every state of a merge: the engine waits for a source
    /// that holds no entry; while sources are still to be pulled for the
    /// first time it waits for the first of them, and none of them holds an
    /// entry; once it waits for none, none holds an entry.
    pub open spec fn valid(self) -> bool {
        &&& 0 <= self.primed <= self.sources()
        &&& match self.turn {
            Some(i) => 0 <= i < self.sources() && self.heads[i] is None,
            None => self.primed == self.sources() && self.drained(),
        }
        &&& self.primed < self.sources() ==> {
            &&& self.turn == Some(self.primed)
            &&& forall|i: int| self.primed <= i < self.sources() ==> self.heads[i] is None
        }
    }

    /// The state before any read of a merge of `sources` sources.
    pub open spec fn initial(keys: Set<Seq<char>>, sources: int) -> MergerView {
        MergerView {
            keys,
            heads: Seq::new(sources as nat, |i: int| None),
            primed: 0,
            turn: if sources == 0 {
                None
            } else {
                Some(0int)
            },
        }
    }

    /// The state in which the source waited for has just been given `head`.
    pub open spec fn seated(self, head: EntryView) -> MergerView {
        MergerView { heads: self.heads.update(self.turn->0, Some(head)), ..self }
    }
}

/// The driver's first action in a merge of `sources` sources.
pub open spec fn first_action(sources: int) -> ActionView {
    if sources == 0 {
        ActionView::Finish
    } else {
        ActionView::Read { source: 0 }
    }
}

/// How the engine goes on from `pre`, in which the source waited for has
/// been pulled to an entry or to its end.
///
/// While sources are still to be pulled for the first time, the next of
/// them is read. After that the source whose head has the smallest key gives
/// up its head to be written, and is the one to be read next; which one of
/// several with the same smallest key is left open. Where no source holds
/// an entry the merge is complete.
pub open spec fn moves_on(pre: MergerView, post: MergerView, action: ActionView) -> bool {
    let primed = if pre.primed < pre.sources() {
        pre.primed + 1
    } else {
        pre.primed
    };
    if primed < pre.sources() {
        &&& post == MergerView { primed, turn: Some(primed), ..pre }
        &&& action == ActionView::Read { source: primed }
    } else if pre.drained() {
        &&& post == MergerView { primed, turn: None, ..pre }
        &&& action == ActionView::Finish
    } else {
        &&& action matches ActionView::Write { source, line }
        &&& 0 <= source < pre.sources()
        &&& pre.heads[source] matches Some(least)
        &&& line == least.text
        &&& forall|i: int|
            0 <= i < pre.sources() && pre.heads[i] is Some ==> least.key <= (
            #[trigger] pre.heads[i])->0.key
        &&& post == MergerView {
            primed,
            turn: Some(source),
            heads: pre.heads.update(source, None),
            ..pre
        }
    }
}

/// One step of a merge: the engine in state `pre` is handed `read`, the
/// outcome of reading the next line of the source that it waits for (`None`
/// at the end of that source), passes to `post` and answers `action`.
///
/// A read that gives no entry, the line unreadable or without a key,
/// changes nothing: it is passed over with its warning, and the same source
/// is read again. A line that gives an entry becomes the head of its source.
/// At the end of a source, the source is left without a head for good.
pub open spec fn step_allows(
    pre: MergerView,
    read: Option<Result<String, MrgError>>,
    post: MergerView,
    action: ActionView,
) -> bool {
    match pre.turn {
        None => post == pre && action == ActionView::Finish,
        Some(source) => match read {
            Some(line) => match entry_of(pre.keys, line) {
                Some(head) => moves_on(pre.seated(head), post, action),
                None => {
                    &&& post == pre
                    &&& warning_of(pre.keys, line) matches Some(warning)
                    &&& action == ActionView::Skip { source, warning }
                },
            },
            None => moves_on(pre, post, action),
        },
    }
}

impl View for Merger {
    type V = MergerView;

    closed spec fn view(&self) -> MergerView {
        MergerView {
            keys: self.keys@,
            heads: self.heads@.map_values(|head: Option<Entry>| head_view(head)),
            primed: self.primed as int,
            turn: match self.turn {
                Some(i) => Some(i as int),
                None => None,
            },
        }
    }
}

/// How often the frontier is to hold `slot`: once where the slot's source
/// holds an entry of the slot's key, and not at all otherwise.
spec fn due(heads: Seq<Option<Entry>>, slot: Slot) -> nat {
    if slot.source < heads.len() && heads[slot.source as int] is Some && heads[slot.source as int]->0.sort_key
        == slot.key {
        1
    } else {
        0
    }
}

impl Merger {
    /// The frontier holds one slot for each source that holds an entry, with
    /// that entry's key, and no other slot.
    pub closed spec fn coherent(&self) -> bool {
        &&& self.frontier.wf()
        &&& forall|slot: Slot| #[trigger] self.frontier@.count(slot) == due(self.heads@, slot)
    }

    /// The engine's invariant.
    pub closed spec fn wf(&self) -> bool {
        self.coherent() && self@.valid()
    }

    /// What `wf` says of the view.
    pub proof fn lemma_valid(&self)
        requires
            self.wf(),
        ensures
            self@.valid(),
    {
    }

    /// An engine for a merge of `sources` sources under the key names
    /// `keys`, and the driver's first action.
    pub fn new(keys: Vec<String>, sources: usize) -> (r: (Merger, Action))
        ensures
            r.0.wf(),
            r.0@ == MergerView::initial(names_of(keys@), sources as int),
            r.1@ == first_action(sources as int),
    {
        let mut heads: Vec<Option<Entry>> = Vec::new();
        while heads.len() < sources
            invariant
                heads.len() <= sources,
                forall|i: int| 0 <= i < heads.len() ==> heads[i] is None,
            decreases sources - heads.len(),
        {
            heads.push(None);
        }
        let frontier = Frontier::new();
        let turn: Option<usize> = if sources == 0 {
            None
        } else {
            Some(0)
        };
        let engine = Merger { keys: KeySet::new(keys), heads, frontier, primed: 0, turn };
        let action = if sources == 0 {
            Action::Finish
        } else {
            Action::Read { source: 0 }
        };
        proof {
            broadcast use vstd::multiset::group_multiset_axioms;

            assert(engine@.heads =~= MergerView::initial(names_of(keys@), sources as int).heads);
        }
        (engine, action)
    }

    /// The number of sources.
    pub fn sources(&self) -> (r: usize)
        ensures
            r == self@.sources(),
    {
        self.heads.len()
    }

    /// Goes on once the source waited for holds its head or has ended.
    fn move_on(&mut self) -> (action: Action)
        requires
            old(self).coherent(),
            0 <= old(self)@.primed <= old(self)@.sources(),
            old(self)@.turn is Some,
            0 <= old(self)@.turn->0 < old(self)@.sources(),
            old(self)@.primed < old(self)@.sources() ==> {
                &&& old(self)@.turn == Some(old(self)@.primed)
                &&& forall|i: int|
                    old(self)@.primed < i < old(self)@.sources() ==> old(self)@.heads[i] is None
            },
        ensures
            final(self).wf(),
            moves_on(old(self)@, final(self)@, action@),
    {
        let ghost pre = self@;
        if self.primed < self.heads.len() {
            self.primed = self.primed + 1;
        }
        if self.primed < self.heads.len() {
            self.turn = Some(self.primed);
            return Action::Read { source: self.primed };
        }
        match self.frontier.pop() {
            None => {
                self.turn = None;
                proof {
                    assert forall|i: int| 0 <= i < pre.heads.len() implies pre.heads[i] is None by {
                        if self.heads@[i] is Some {
                            let slot = Slot { key: self.heads@[i]->0.sort_key, source: i as usize };
                            assert(self.frontier@.count(slot) == 1);
                        }
                    }
                }
                Action::Finish
            },
            Some(slot) => {
                let ghost before = self.heads@;
                let ghost held = old(self).frontier@;
                assert(held.count(slot) == 1);
                let source = slot.source;
                let head = self.heads[source].take();
                self.turn = Some(source);
                let entry = head.unwrap();
                proof {
                    broadcast use vstd::multiset::group_multiset_axioms;

                    assert(self.heads@ == before.update(source as int, None));
                    assert(self@.heads =~= pre.heads.update(source as int, None));
                    assert forall|i: int| 0 <= i < pre.sources() && pre.heads[i] is Some implies slot.key
                        <= (#[trigger] pre.heads[i])->0.key by {
                        let other = Slot { key: before[i]->0.sort_key, source: i as usize };
                        assert(held.count(other) == 1);
                    }
                    assert forall|other: Slot| #[trigger]
                        self.frontier@.count(other) == due(self.heads@, other) by {
                        assert(held.count(other) == due(before, other));
                    }
                }
                Action::Write { source, line: entry.raw_text }
            },
        }
    }

    /// Takes the outcome of the read that the last action asked for, `None`
    /// at the end of the source, and answers with the next action.
    pub fn step(&mut self, read: Option<Result<String, MrgError>>) -> (action: Action)
        requires
            old(self).wf(),
        ensures
            final(self).wf(),
            step_allows(old(self)@, read, final(self)@, action@),
    {
        let source = match self.turn {
            Some(source) => source,
            None => {
                return Action::Finish;
            },
        };
        match read {
            Some(line) => match pull(&self.keys, line) {
                Err(warning) => Action::Skip { source, warning },
                Ok(entry) => {
                    let ghost pre = self@;
                    let ghost before = self.heads@;
                    let ghost held = self.frontier@;
                    let ghost head = entry@;
                    let key = entry.sort_key;
                    self.heads[source] = Some(entry);
                    self.frontier.push(Slot { key, source });
                    proof {
                        broadcast use vstd::multiset::group_multiset_axioms;

                        assert(self@.heads =~= pre.seated(head).heads);
                        assert(self@ == pre.seated(head));
                        assert forall|other: Slot| #[trigger]
                            self.frontier@.count(other) == due(self.heads@, other) by {
                            assert(held.count(other) == due(before, other));
                        }
                    }
                    self.move_on()
                },
            },
            None => self.move_on(),
        }
    }
}

} // verus!
