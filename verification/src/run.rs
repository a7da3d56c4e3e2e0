//! A merge of inputs that are held in memory.

use vstd::prelude::*;
use vstd::string::StringExecFns;
use crate::engine::{moves_on, Action, ActionView, Merger, MergerView};
use crate::error::MrgError;
use crate::extract::names_of;
use crate::merge::{
    holds_least, lemma_emit, lemma_sum_bounds, lemma_sum_update, lengths, merged, merged_to, total,
};
use crate::source::{
    about, entries_of, entry_of, lemma_entries_prefix, sources_of, warning_of, warnings_of,
    warnings_view, EntryView, Warning, WarningView,
};

verus! {

/// The text that a sequence of entries makes in the sink: each entry's text,
/// followed by a line feed.
pub open spec fn rendered(entries: Seq<EntryView>) -> Seq<char>
    decreases entries.len(),
{
    if entries.len() == 0 {
        Seq::empty()
    } else {
        rendered(entries.drop_last()) + entries.last().text + seq!['\n']
    }
}

/// The warnings that a log has gained since it was `before`.
pub open spec fn gained(before: Seq<Warning>, after: Seq<Warning>) -> Seq<WarningView> {
    warnings_view(after).skip(before.len() as int)
}

/// Merges the inputs `ins`, each the outcomes of reading its lines in
/// order, into `out`, under the key names `keys`, and reports in `log` the
/// reads that gave no entry.
///
/// What is appended to `out` is a merge of the inputs' entries: every line
/// that was read and yields a key, each once, each with a line feed after
/// it, and each appended when no input held an entry of a smaller key next.
/// Lines that could not be read and lines without a key are passed over;
/// what is appended to `log` holds, for each input, the warnings that its
/// lines call for, in the order of the lines. A `String` takes every write,
/// so the run never fails.
pub fn run(
    keys: Vec<String>,
    ins: Vec<Vec<Result<String, MrgError>>>,
    out: &mut String,
    log: &mut Vec<Warning>,
) -> (r: Result<(), MrgError>)
    ensures
        r is Ok,
        exists|emitted: Seq<EntryView>|
            {
                &&& #[trigger] merged(sources_of(names_of(keys@), ins@), emitted)
                &&& final(out)@ == old(out)@ + rendered(emitted)
            },
        warnings_view(final(log)@) == warnings_view(old(log)@) + gained(old(log)@, final(log)@),
        forall|k: int|
            0 <= k < gained(old(log)@, final(log)@).len() ==> 0 <= (#[trigger] gained(
                old(log)@,
                final(log)@,
            )[k]).source < ins.len(),
        forall|i: int|
            0 <= i < ins.len() ==> #[trigger] about(gained(old(log)@, final(log)@), i) == warnings_of(
                names_of(keys@),
                ins[i]@,
            ),
{
    let ghost names = names_of(keys@);
    let ghost sources = sources_of(names, ins@);
    let n = ins.len();
    let mut served: Vec<usize> = Vec::new();
    while served.len() < n
        invariant
            served.len() <= n,
            forall|i: int| 0 <= i < served.len() ==> served[i] == 0,
        decreases n - served.len(),
    {
        served.push(0);
    }
    let (mut engine, mut action) = Merger::new(keys, n);
    let ghost mut account = Account {
        served: served@,
        taken: Seq::new(n as nat, |i: int| 0int),
        ended: Seq::new(n as nat, |i: int| false),
    };
    let ghost mut emitted: Seq<EntryView> = Seq::empty();
    let ghost mut warned: Seq<WarningView> = Seq::empty();
    proof {
        lemma_start(names, ins@, account);
        lemma_logged_start(names, ins@, served@);
        assert(out@ == old(out)@ + rendered(emitted));
        assert(warnings_view(log@) == warnings_view(old(log)@) + warned);
    }
    loop
        invariant
            n == ins.len(),
            names == names_of(keys@),
            sources == sources_of(names, ins@),
            engine.wf(),
            account.served == served@,
            agrees(names, ins@, account, engine@),
            logged(names, ins@, served@, warned),
            merged_to(sources, account.taken, emitted),
            out@ == old(out)@ + rendered(emitted),
            warnings_view(log@) == warnings_view(old(log)@) + warned,
            action@ is Finish <==> engine@.turn is None,
            action@ matches ActionView::Read { source } ==> engine@.turn == Some(source),
            action@ matches ActionView::Skip { source, .. } ==> engine@.turn == Some(source),
            action@ matches ActionView::Write { source, .. } ==> engine@.turn == Some(source),
        ensures
            engine@.turn is None,
            account.served == served@,
            agrees(names, ins@, account, engine@),
            logged(names, ins@, served@, warned),
            merged_to(sources, account.taken, emitted),
            out@ == old(out)@ + rendered(emitted),
            warnings_view(log@) == warnings_view(old(log)@) + warned,
            n == ins.len(),
            names == names_of(keys@),
            sources == sources_of(names, ins@),
        decreases total(budget(ins@, account)),
    {
        let source = match action {
            Action::Finish => {
                break ;
            },
            Action::Read { source } => source,
            Action::Skip { source, warning: _ } => source,
            Action::Write { source, line: _ } => source,
        };
        let ghost pre = engine@;
        let ghost before = account;
        proof {
            lemma_awaited(names, ins@, account, pre, source as int);
        }
        let at = served[source];
        let read = if at < ins[source].len() {
            served[source] = at + 1;
            proof {
                account = account.serve(source as int);
            }
            Some(copy_of(&ins[source][at]))
        } else {
            proof {
                account = account.end(source as int);
            }
            None
        };
        let ghost handed = read;
        let ghost earlier = emitted;
        action = engine.step(read);
        proof {
            engine.lemma_valid();
            let post = engine@;
            let settled = match handed {
                Some(line) => {
                    let reported = match warning_of(names, line) {
                        Some(text) => warned.push(WarningView { source: source as int, text }),
                        None => warned,
                    };
                    lemma_logged(names, ins@, before.served, warned, source as int, served@, reported);
                    warned = reported;
                    match entry_of(names, line) {
                        Some(head) => {
                            lemma_served_entry(names, ins@, before, pre, source as int, head);
                            Some(pre.seated(head))
                        },
                        None => {
                            lemma_served_nothing(names, ins@, before, pre, source as int);
                            None
                        },
                    }
                },
                None => {
                    lemma_served_end(names, ins@, before, pre, source as int);
                    Some(pre)
                },
            };
            assert(settled is None ==> emitted == earlier && !(action@ is Write));
            if let Some(settled) = settled {
                if let ActionView::Write { source: pick, line } = action@ {
                    let entry = lemma_moved_on_to_write(
                        names,
                        ins@,
                        account,
                        emitted,
                        settled,
                        post,
                        pick,
                        line,
                    );
                    account = account.take(pick);
                    emitted = emitted.push(entry);
                    assert(emitted.drop_last() == earlier);
                } else {
                    lemma_moved_on(names, ins@, account, settled, post, action@);
                }
            }
        }
        match &action {
            Action::Write { source: _, line } => {
                let ghost wrote = out@;
                out.append(line.as_str());
                out.append("\n");
                proof {
                    reveal_strlit("\n");
                    assert("\n"@ == seq!['\n']);
                    assert(emitted.drop_last() == earlier);
                    assert(out@ == wrote + emitted.last().text + seq!['\n']);
                    assert(out@ == old(out)@ + (rendered(earlier) + emitted.last().text + seq!['\n']));
                }
            },
            Action::Skip { source, warning } => {
                let ghost kept = warnings_view(log@);
                let warning = Warning { source: *source, text: warning.clone() };
                let ghost added = warning@;
                log.push(warning);
                proof {
                    assert(warnings_view(log@) == kept.push(added));
                    assert(warnings_view(old(log)@) + warned == kept.push(added));
                }
            },
            _ => {},
        }
        proof {
            lemma_budget(names, ins@, account, engine@);
        }
    }
    proof {
        lemma_finished(names, ins@, account, engine@);
        assert(merged(sources, emitted));
        assert(gained(old(log)@, log@) == warned);
        assert forall|i: int| 0 <= i < ins@.len() implies #[trigger] about(warned, i) == warnings_of(
            names,
            ins@[i]@,
        ) by {
            assert(about(warned, i) == warnings_of(names, ins@[i]@.take(served@[i] as int)));
        }
    }
    Ok(())
}

/// A copy of what one read gave.
fn copy_of(line: &Result<String, MrgError>) -> (r: Result<String, MrgError>)
    ensures
        r == *line,
{
    match line {
        Ok(text) => Ok(text.clone()),
        Err(failure) => Err(MrgError { msg: failure.msg.clone() }),
    }
}

/// The driver's account of one source agrees with the engine's: of the
/// entries among the `served` lines read so far, `taken` have been emitted,
/// and the one after them, if there is one, is the head that the source
/// holds.
#[verifier::opaque]
spec fn tracks(
    keys: Set<Seq<char>>,
    lines: Seq<Result<String, MrgError>>,
    served: int,
    taken: int,
    head: Option<EntryView>,
) -> bool {
    let seen = entries_of(keys, lines.take(served));
    &&& 0 <= served <= lines.len()
    &&& 0 <= taken
    &&& seen.len() == taken + if head is Some {
        1int
    } else {
        0int
    }
    &&& head is Some ==> head == Some(seen.last())
}

/// Before anything is read, nothing is taken and nothing is held.
proof fn lemma_tracks_start(keys: Set<Seq<char>>, lines: Seq<Result<String, MrgError>>)
    ensures
        tracks(keys, lines, 0, 0, None),
{
    reveal(tracks);
    assert(lines.take(0) == Seq::<Result<String, MrgError>>::empty());
}

/// No more lines are served than there are.
proof fn lemma_tracks_bounds(
    keys: Set<Seq<char>>,
    lines: Seq<Result<String, MrgError>>,
    served: int,
    taken: int,
    head: Option<EntryView>,
)
    requires
        tracks(keys, lines, served, taken, head),
    ensures
        0 <= served <= lines.len(),
        0 <= taken,
{
    reveal(tracks);
}

/// Serving one more line to a source that holds no head gives it the
/// line's entry for its head, if the line has one.
proof fn lemma_tracks_line(
    keys: Set<Seq<char>>,
    lines: Seq<Result<String, MrgError>>,
    served: int,
    taken: int,
)
    requires
        tracks(keys, lines, served, taken, None),
        served < lines.len(),
    ensures
        tracks(keys, lines, served + 1, taken, entry_of(keys, lines[served])),
{
    reveal(tracks);
    assert(lines.take(served + 1).drop_last() == lines.take(served));
    assert(lines.take(served + 1).last() == lines[served]);
}

/// Taking the head of a source leaves it without a head, with one more
/// entry taken.
proof fn lemma_tracks_take(
    keys: Set<Seq<char>>,
    lines: Seq<Result<String, MrgError>>,
    served: int,
    taken: int,
    head: Option<EntryView>,
)
    requires
        tracks(keys, lines, served, taken, head),
        head is Some,
    ensures
        tracks(keys, lines, served, taken + 1, None),
{
    reveal(tracks);
}

/// A source that holds a head has, in its entries, that head next after the
/// ones taken; a source without a head that was read to its end has given
/// all its entries.
proof fn lemma_tracked_head(
    keys: Set<Seq<char>>,
    lines: Seq<Result<String, MrgError>>,
    served: int,
    taken: int,
    head: Option<EntryView>,
)
    requires
        tracks(keys, lines, served, taken, head),
    ensures
        0 <= taken <= entries_of(keys, lines).len(),
        head is Some ==> taken < entries_of(keys, lines).len() && head == Some(
            entries_of(keys, lines)[taken],
        ),
        head is None && served == lines.len() ==> taken == entries_of(keys, lines).len(),
{
    reveal(tracks);
    lemma_entries_prefix(keys, lines, served);
    if served == lines.len() {
        assert(lines.take(served) == lines);
    }
}

/// The driver's account of the sources: how many lines of each it has
/// served, how many entries of each have been emitted, and which have ended.
struct Account {
    served: Seq<usize>,
    taken: Seq<int>,
    ended: Seq<bool>,
}

impl Account {
    /// The account has one place for each of `n` sources.
    spec fn sized(self, n: int) -> bool {
        self.served.len() == n && self.taken.len() == n && self.ended.len() == n
    }

    /// The account with one more line of `source` served.
    spec fn serve(self, source: int) -> Account {
        Account { served: self.served.update(source, (self.served[source] + 1) as usize), ..self }
    }

    /// The account with `source` ended.
    spec fn end(self, source: int) -> Account {
        Account { ended: self.ended.update(source, true), ..self }
    }

    /// The account with one more entry of `source` taken.
    spec fn take(self, source: int) -> Account {
        Account { taken: self.taken.update(source, self.taken[source] + 1), ..self }
    }
}

/// The account of source `i` agrees with the state in which the engine
/// waits for a read. A source has ended once its end was handed to the
/// engine; a source that the engine does not wait for, after its first pull,
/// and that holds no head has ended.
spec fn source_agrees(
    keys: Set<Seq<char>>,
    ins: Seq<Vec<Result<String, MrgError>>>,
    account: Account,
    state: MergerView,
    i: int,
) -> bool {
    &&& tracks(keys, ins[i]@, account.served[i] as int, account.taken[i], state.heads[i])
    &&& account.ended[i] ==> {
        &&& account.served[i] == ins[i]@.len()
        &&& state.heads[i] is None
        &&& !state.awaits(i)
        &&& i < state.primed
    }
    &&& i < state.primed && !state.awaits(i) && state.heads[i] is None ==> account.ended[i]
}

/// The account agrees with the state in which the engine waits for a read.
spec fn agrees(
    keys: Set<Seq<char>>,
    ins: Seq<Vec<Result<String, MrgError>>>,
    account: Account,
    state: MergerView,
) -> bool {
    &&& state.valid()
    &&& state.keys == keys
    &&& state.sources() == ins.len()
    &&& account.sized(ins.len() as int)
    &&& forall|i: int| 0 <= i < ins.len() ==> #[trigger] source_agrees(keys, ins, account, state, i)
}

/// The account of source `i` agrees with the state `settled`, in which the
/// source waited for holds its head or has ended.
spec fn source_settled(
    keys: Set<Seq<char>>,
    ins: Seq<Vec<Result<String, MrgError>>>,
    account: Account,
    settled: MergerView,
    i: int,
) -> bool {
    &&& tracks(keys, ins[i]@, account.served[i] as int, account.taken[i], settled.heads[i])
    &&& account.ended[i] ==> {
        &&& account.served[i] == ins[i]@.len()
        &&& settled.heads[i] is None
        &&& i < settled.primed || settled.awaits(i)
    }
    &&& (i < settled.primed || settled.awaits(i)) && settled.heads[i] is None ==> account.ended[i]
}

/// The state `settled` is one from which the engine goes on: it waits for a
/// source, which while sources are still to be pulled for the first time is
/// the first of them.
spec fn poised(settled: MergerView) -> bool {
    &&& 0 <= settled.primed <= settled.sources()
    &&& settled.turn is Some
    &&& 0 <= settled.turn->0 < settled.sources()
    &&& settled.primed < settled.sources() ==> {
        &&& settled.awaits(settled.primed)
        &&& forall|i: int| settled.primed < i < settled.sources() ==> settled.heads[i] is None
    }
}

/// The account agrees with the state `settled`, in which the source waited
/// for holds its head or has ended.
spec fn settled_agrees(
    keys: Set<Seq<char>>,
    ins: Seq<Vec<Result<String, MrgError>>>,
    account: Account,
    settled: MergerView,
) -> bool {
    &&& settled.keys == keys
    &&& settled.sources() == ins.len()
    &&& account.sized(ins.len() as int)
    &&& poised(settled)
    &&& forall|i: int| 0 <= i < ins.len() ==> #[trigger] source_settled(keys, ins, account, settled, i)
}

/// How many reads each source can still be asked for: one for each line
/// not yet served, and one for its end.
spec fn budget(ins: Seq<Vec<Result<String, MrgError>>>, account: Account) -> Seq<int> {
    Seq::new(
        ins.len(),
        |i: int|
            ins[i]@.len() - account.served[i] + if account.ended[i] {
                0int
            } else {
                1int
            },
    )
}

/// Before anything is read, the empty account agrees with the engine.
proof fn lemma_start(keys: Set<Seq<char>>, ins: Seq<Vec<Result<String, MrgError>>>, account: Account)
    requires
        account.sized(ins.len() as int),
        forall|i: int| 0 <= i < ins.len() ==> account.served[i] == 0,
        forall|i: int| 0 <= i < ins.len() ==> account.taken[i] == 0,
        forall|i: int| 0 <= i < ins.len() ==> !account.ended[i],
    ensures
        agrees(keys, ins, account, MergerView::initial(keys, ins.len() as int)),
        merged_to(sources_of(keys, ins), account.taken, Seq::empty()),
{
    let state = MergerView::initial(keys, ins.len() as int);
    assert forall|i: int| 0 <= i < ins.len() implies #[trigger] source_agrees(
        keys,
        ins,
        account,
        state,
        i,
    ) by {
        lemma_tracks_start(keys, ins[i]@);
    }
}

/// No source can be asked for fewer reads than none.
proof fn lemma_budget(
    keys: Set<Seq<char>>,
    ins: Seq<Vec<Result<String, MrgError>>>,
    account: Account,
    state: MergerView,
)
    requires
        agrees(keys, ins, account, state),
    ensures
        forall|i: int| 0 <= i < ins.len() ==> #[trigger] budget(ins, account)[i] >= 0,
        total(budget(ins, account)) >= 0,
{
    let funds = budget(ins, account);
    assert forall|i: int| 0 <= i < funds.len() implies #[trigger] funds[i] >= 0 by {
        assert(source_agrees(keys, ins, account, state, i));
        lemma_tracks_bounds(keys, ins[i]@, account.served[i] as int, account.taken[i], state.heads[i]);
    }
    lemma_sum_bounds(funds, funds.len() as int);
}

/// The source that the engine waits for has not ended and holds no head,
/// and each read that it can still be asked for is within the budget.
proof fn lemma_awaited(
    keys: Set<Seq<char>>,
    ins: Seq<Vec<Result<String, MrgError>>>,
    account: Account,
    pre: MergerView,
    source: int,
)
    requires
        agrees(keys, ins, account, pre),
        pre.turn == Some(source),
    ensures
        0 <= source < ins.len(),
        account.served[source] <= ins[source]@.len(),
        ins[source]@.len() <= usize::MAX,
        !account.ended[source],
        pre.heads[source] is None,
        total(budget(ins, account)) > 0,
        account.served[source] < ins[source]@.len() ==> total(budget(ins, account.serve(source)))
            < total(budget(ins, account)),
        total(budget(ins, account.end(source))) < total(budget(ins, account)),
{
    assert(pre.awaits(source));
    assert(source_agrees(keys, ins, account, pre, source));
    lemma_tracks_bounds(
        keys,
        ins[source]@,
        account.served[source] as int,
        account.taken[source],
        pre.heads[source],
    );
    assert(ins[source]@.len() == ins[source].len());
    let funds = budget(ins, account);
    lemma_budget(keys, ins, account, pre);
    lemma_sum_bounds(funds, funds.len() as int);
    assert(funds[source] > 0);
    lemma_sum_update(funds, source, funds[source] - 1, funds.len() as int);
    assert(budget(ins, account.end(source)) == funds.update(source, funds[source] - 1));
    if account.served[source] < ins[source]@.len() {
        assert(budget(ins, account.serve(source)) == funds.update(source, funds[source] - 1));
    }
}

/// The account once a line that gives no entry was served: the engine's
/// state is as it was.
proof fn lemma_served_nothing(
    keys: Set<Seq<char>>,
    ins: Seq<Vec<Result<String, MrgError>>>,
    account: Account,
    pre: MergerView,
    source: int,
)
    requires
        agrees(keys, ins, account, pre),
        pre.turn == Some(source),
        account.served[source] < ins[source]@.len(),
        entry_of(keys, ins[source]@[account.served[source] as int]) is None,
    ensures
        agrees(keys, ins, account.serve(source), pre),
{
    let more = account.serve(source);
    lemma_awaited(keys, ins, account, pre, source);
    assert forall|i: int| 0 <= i < ins.len() implies #[trigger] source_agrees(keys, ins, more, pre, i) by {
        assert(source_agrees(keys, ins, account, pre, i));
        if i == source {
            lemma_tracks_line(keys, ins[i]@, account.served[i] as int, account.taken[i]);
        }
    }
}

/// The account once a line that gives an entry was served: the source
/// waited for holds the entry as its head.
proof fn lemma_served_entry(
    keys: Set<Seq<char>>,
    ins: Seq<Vec<Result<String, MrgError>>>,
    account: Account,
    pre: MergerView,
    source: int,
    head: EntryView,
)
    requires
        agrees(keys, ins, account, pre),
        pre.turn == Some(source),
        account.served[source] < ins[source]@.len(),
        entry_of(keys, ins[source]@[account.served[source] as int]) == Some(head),
    ensures
        settled_agrees(keys, ins, account.serve(source), pre.seated(head)),
{
    let more = account.serve(source);
    let settled = pre.seated(head);
    lemma_awaited(keys, ins, account, pre, source);
    assert(pre.awaits(source));
    assert forall|i: int| 0 <= i < ins.len() implies #[trigger] source_settled(
        keys,
        ins,
        more,
        settled,
        i,
    ) by {
        assert(source_agrees(keys, ins, account, pre, i));
        if i == source {
            lemma_tracks_line(keys, ins[i]@, account.served[i] as int, account.taken[i]);
        }
    }
    assert(poised(settled));
}

/// The account once the end of the source waited for was served: that
/// source has ended.
proof fn lemma_served_end(
    keys: Set<Seq<char>>,
    ins: Seq<Vec<Result<String, MrgError>>>,
    account: Account,
    pre: MergerView,
    source: int,
)
    requires
        agrees(keys, ins, account, pre),
        pre.turn == Some(source),
        account.served[source] == ins[source]@.len(),
    ensures
        settled_agrees(keys, ins, account.end(source), pre),
{
    let over = account.end(source);
    lemma_awaited(keys, ins, account, pre, source);
    assert(pre.awaits(source));
    assert forall|i: int| 0 <= i < ins.len() implies #[trigger] source_settled(keys, ins, over, pre, i) by {
        assert(source_agrees(keys, ins, account, pre, i));
    }
    assert(poised(pre));
}

/// When the engine picks the source to write from, that source holds the
/// least among the entries that the sources have next.
proof fn lemma_pick_is_least(
    keys: Set<Seq<char>>,
    ins: Seq<Vec<Result<String, MrgError>>>,
    account: Account,
    settled: MergerView,
    pick: int,
)
    requires
        settled_agrees(keys, ins, account, settled),
        settled.primed >= settled.sources() - 1,
        0 <= pick < ins.len(),
        settled.heads[pick] is Some,
        forall|i: int|
            0 <= i < ins.len() && settled.heads[i] is Some ==> settled.heads[pick]->0.key <= (
            #[trigger] settled.heads[i])->0.key,
    ensures
        holds_least(sources_of(keys, ins), account.taken, pick),
        sources_of(keys, ins)[pick][account.taken[pick]] == settled.heads[pick]->0,
{
    let sources = sources_of(keys, ins);
    assert(source_settled(keys, ins, account, settled, pick));
    lemma_tracked_head(
        keys,
        ins[pick]@,
        account.served[pick] as int,
        account.taken[pick],
        settled.heads[pick],
    );
    assert forall|i: int|
        0 <= i < sources.len() && 0 <= account.taken[i] < sources[i].len() implies sources[pick][account.taken[pick]].key
        <= (#[trigger] sources[i])[account.taken[i]].key by {
        assert(source_settled(keys, ins, account, settled, i));
        lemma_tracked_head(
            keys,
            ins[i]@,
            account.served[i] as int,
            account.taken[i],
            settled.heads[i],
        );
        if settled.heads[i] is None {
            assert(i < settled.primed || settled.awaits(i));
        }
        assert(settled.heads[i] is Some);
        assert(settled.heads[pick]->0.key <= settled.heads[i]->0.key);
    }
}

/// The account after the engine has gone on from `settled` to ask for a
/// read or to finish: nothing was taken.
proof fn lemma_moved_on(
    keys: Set<Seq<char>>,
    ins: Seq<Vec<Result<String, MrgError>>>,
    account: Account,
    settled: MergerView,
    post: MergerView,
    action: ActionView,
)
    requires
        settled_agrees(keys, ins, account, settled),
        moves_on(settled, post, action),
        post.valid(),
        !(action is Write),
    ensures
        agrees(keys, ins, account, post),
        action is Finish <==> post.turn is None,
        action matches ActionView::Read { source } ==> post.turn == Some(source),
        !(action is Skip),
{
    assert forall|i: int| 0 <= i < ins.len() implies #[trigger] source_agrees(keys, ins, account, post, i) by {
        assert(source_settled(keys, ins, account, settled, i));
    }
}

/// The account after the engine has gone on from `settled` to ask for a
/// write: the entry written is one more step of the merge.
proof fn lemma_moved_on_to_write(
    keys: Set<Seq<char>>,
    ins: Seq<Vec<Result<String, MrgError>>>,
    account: Account,
    emitted: Seq<EntryView>,
    settled: MergerView,
    post: MergerView,
    pick: int,
    line: Seq<char>,
) -> (entry: EntryView)
    requires
        settled_agrees(keys, ins, account, settled),
        merged_to(sources_of(keys, ins), account.taken, emitted),
        moves_on(settled, post, ActionView::Write { source: pick, line }),
        post.valid(),
    ensures
        0 <= pick < ins.len(),
        entry.text == line,
        agrees(keys, ins, account.take(pick), post),
        merged_to(sources_of(keys, ins), account.take(pick).taken, emitted.push(entry)),
        post.turn == Some(pick),
        budget(ins, account.take(pick)) == budget(ins, account),
{
    let entry = settled.heads[pick]->0;
    lemma_pick_is_least(keys, ins, account, settled, pick);
    lemma_emit(sources_of(keys, ins), account.taken, emitted, pick);
    let next = account.take(pick);
    assert forall|i: int| 0 <= i < ins.len() implies #[trigger] source_agrees(keys, ins, next, post, i) by {
        assert(source_settled(keys, ins, account, settled, i));
        if i == pick {
            lemma_tracks_take(
                keys,
                ins[i]@,
                account.served[i] as int,
                account.taken[i],
                settled.heads[i],
            );
        }
    }
    entry
}

/// The warnings logged so far are, source by source, those that the lines
/// served so far call for.
spec fn logged(
    keys: Set<Seq<char>>,
    ins: Seq<Vec<Result<String, MrgError>>>,
    served: Seq<usize>,
    log: Seq<WarningView>,
) -> bool {
    &&& forall|i: int|
        0 <= i < ins.len() ==> #[trigger] about(log, i) == warnings_of(
            keys,
            ins[i]@.take(served[i] as int),
        )
    &&& forall|k: int| 0 <= k < log.len() ==> 0 <= (#[trigger] log[k]).source < ins.len()
}

/// Before anything is read, nothing is logged.
proof fn lemma_logged_start(
    keys: Set<Seq<char>>,
    ins: Seq<Vec<Result<String, MrgError>>>,
    served: Seq<usize>,
)
    requires
        served.len() == ins.len(),
        forall|i: int| 0 <= i < ins.len() ==> served[i] == 0,
    ensures
        logged(keys, ins, served, Seq::empty()),
{
    assert forall|i: int| 0 <= i < ins.len() implies #[trigger] about(
        Seq::<WarningView>::empty(),
        i,
    ) == warnings_of(keys, ins[i]@.take(served[i] as int)) by {
        assert(ins[i]@.take(0) == Seq::<Result<String, MrgError>>::empty());
    }
}

/// Serving one more line of a source adds that line's warning, if it calls
/// for one, to the warnings about the source, and leaves the other sources'
/// warnings as they are.
proof fn lemma_logged(
    keys: Set<Seq<char>>,
    ins: Seq<Vec<Result<String, MrgError>>>,
    served: Seq<usize>,
    log: Seq<WarningView>,
    source: int,
    more: Seq<usize>,
    longer: Seq<WarningView>,
)
    requires
        logged(keys, ins, served, log),
        served.len() == ins.len(),
        0 <= source < ins.len(),
        served[source] < ins[source]@.len(),
        more == served.update(source, (served[source] + 1) as usize),
        longer == match warning_of(keys, ins[source]@[served[source] as int]) {
            Some(text) => log.push(WarningView { source, text }),
            None => log,
        },
    ensures
        logged(keys, ins, more, longer),
{
    let lines = ins[source]@;
    let at = served[source] as int;
    assert(lines.len() == ins[source].len());
    assert(lines.take(at + 1).drop_last() == lines.take(at));
    assert(lines.take(at + 1).last() == lines[at]);
    if longer.len() > log.len() {
        assert(longer.drop_last() == log);
    }
    assert forall|i: int| 0 <= i < ins.len() implies #[trigger] about(longer, i) == warnings_of(
        keys,
        ins[i]@.take(more[i] as int),
    ) by {
        assert(about(log, i) == warnings_of(keys, ins[i]@.take(served[i] as int)));
    }
}

/// Once the merge is complete, every source has given all its entries and
/// all its lines were served.
proof fn lemma_finished(
    keys: Set<Seq<char>>,
    ins: Seq<Vec<Result<String, MrgError>>>,
    account: Account,
    state: MergerView,
)
    requires
        agrees(keys, ins, account, state),
        state.turn is None,
    ensures
        account.taken == lengths(sources_of(keys, ins)),
        forall|i: int|
            0 <= i < ins.len() ==> #[trigger] ins[i]@.take(account.served[i] as int) == ins[i]@,
{
    let sources = sources_of(keys, ins);
    assert forall|i: int| 0 <= i < ins.len() implies #[trigger] account.taken[i] == lengths(
        sources,
    )[i] && ins[i]@.take(account.served[i] as int) == ins[i]@ by {
        assert(source_agrees(keys, ins, account, state, i));
        assert(!state.awaits(i));
        assert(account.ended[i]);
        lemma_tracked_head(keys, ins[i]@, account.served[i] as int, account.taken[i], state.heads[i]);
    }
    assert(account.taken =~= lengths(sources));
    assert forall|i: int| 0 <= i < ins.len() implies #[trigger] ins[i]@.take(
        account.served[i] as int,
    ) == ins[i]@ by {
        assert(account.taken[i] == lengths(sources)[i]);
    }
}

} // verus!
