//! Folding the edit layer over what the recogniser heard.

use crate::session;
use crate::session::{mmss, Edit, EditText, Line, LineText, RawRecord, RecordText, Target};
use crate::text;
use crate::text::{align_left, replace};
use vstd::prelude::*;

verus! {

/// A record before any edit: nobody is named yet.
pub open spec fn heard(r: RecordText) -> LineText {
    LineText {
        track: r.track,
        start_ms: r.start_ms,
        end_ms: r.end_ms,
        speaker: None,
        text: r.text,
    }
}

pub open spec fn all_heard(records: Seq<RecordText>) -> Seq<LineText> {
    records.map_values(|r: RecordText| heard(r))
}

/// An edit with this target points at this line.
pub open spec fn aims(t: Target, l: LineText) -> bool {
    l.track == t.track && l.start_ms == t.start_ms
}

/// Some edit reverts the edit on line `seq`.
pub open spec fn reverted(edits: Seq<EditText>, seq: int) -> bool {
    exists|k: int|
        0 <= k < edits.len() && (#[trigger] edits[k] matches EditText::Revert { target_seq, .. }
            && target_seq == seq)
}

/// What an edit does to the line it points at.
pub open spec fn amended(l: LineText, e: EditText) -> LineText {
    match e {
        EditText::Repair { from, to, .. } => LineText { text: text::replaced(l.text, from, to), ..l },
        EditText::Speaker { name, .. } => LineText { speaker: Some(name), ..l },
        EditText::Revert { .. } => l,
    }
}

pub open spec fn target_of(e: EditText) -> Option<Target> {
    match e {
        EditText::Repair { target, .. } => Some(target),
        EditText::Speaker { target, .. } => Some(target),
        EditText::Revert { .. } => None,
    }
}

/// `i` is the first line the target points at.
pub open spec fn is_first(lines: Seq<LineText>, t: Target, i: int) -> bool {
    &&& 0 <= i < lines.len()
    &&& aims(t, lines[i])
    &&& forall|j: int| 0 <= j < i ==> !aims(t, #[trigger] lines[j])
}

/// An edit applied: the first line it points at is amended, and an edit that
/// points at no line does nothing.
pub open spec fn applied(lines: Seq<LineText>, e: EditText) -> Seq<LineText> {
    match target_of(e) {
        Some(t) => Seq::new(
            lines.len(),
            |i: int|
                if is_first(lines, t, i) {
                    amended(lines[i], e)
                } else {
                    lines[i]
                },
        ),
        None => lines,
    }
}

/// The first `k` edits applied in order, the reverted ones left out. A revert
/// counts wherever in the file it stands.
pub open spec fn folded(lines: Seq<LineText>, edits: Seq<EditText>, k: nat) -> Seq<LineText>
    decreases k,
{
    if k == 0 {
        lines
    } else {
        let so_far = folded(lines, edits, (k - 1) as nat);
        if reverted(edits, k - 1) {
            so_far
        } else {
            applied(so_far, edits[k - 1])
        }
    }
}

/// `l` put in its place in a list ordered by start, after every line that
/// starts no later.
pub open spec fn in_order(list: Seq<LineText>, l: LineText) -> Seq<LineText>
    decreases list.len(),
{
    if list.len() > 0 && list.last().start_ms > l.start_ms {
        in_order(list.drop_last(), l).push(list.last())
    } else {
        list.push(l)
    }
}

/// The lines ordered by when they start; lines that start together keep their
/// order.
pub open spec fn by_start(lines: Seq<LineText>) -> Seq<LineText>
    decreases lines.len(),
{
    if lines.len() == 0 {
        lines
    } else {
        in_order(by_start(lines.drop_last()), lines.last())
    }
}

/// What was heard, with the edits folded over it unless it is asked for verbatim,
/// in the order it was written.
pub open spec fn appended(records: Seq<RecordText>, edits: Seq<EditText>, verbatim: bool) -> Seq<
    LineText,
> {
    if verbatim {
        all_heard(records)
    } else {
        folded(all_heard(records), edits, edits.len())
    }
}

/// The transcript of a session: what was heard, with the edits folded over it
/// unless it is asked for verbatim, ordered by when each line starts.
pub open spec fn told(records: Seq<RecordText>, edits: Seq<EditText>, verbatim: bool) -> Seq<LineText> {
    by_start(appended(records, edits, verbatim))
}

proof fn lemma_in_order_at(list: Seq<LineText>, l: LineText, k: nat)
    requires
        k <= list.len(),
        forall|i: int| k <= i < list.len() ==> (#[trigger] list[i]).start_ms > l.start_ms,
        k > 0 ==> list[k - 1].start_ms <= l.start_ms,
    ensures
        in_order(list, l) == list.insert(k as int, l),
    decreases list.len(),
{
    if k == list.len() {
        assert(list.insert(k as int, l) == list.push(l));
    } else {
        let front = list.drop_last();
        assert(list[list.len() - 1].start_ms > l.start_ms);
        assert forall|i: int| k <= i < front.len() implies (#[trigger] front[i]).start_ms
            > l.start_ms by {
            assert(front[i] == list[i]);
        }
        lemma_in_order_at(front, l, k);
        assert(front.insert(k as int, l).push(list.last()) == list.insert(k as int, l));
    }
}

/// The lines ordered by when they start.
fn sort_by_start(lines: Vec<Line>) -> (r: Vec<Line>)
    ensures
        session::line_texts(r@) == by_start(session::line_texts(lines@)),
{
    let mut out: Vec<Line> = Vec::new();
    let mut i: usize = 0;
    let ghost all = session::line_texts(lines@);
    proof {
        assert(all.take(0) == Seq::<LineText>::empty());
        assert(session::line_texts(out@) == Seq::<LineText>::empty());
    }
    while i < lines.len()
        invariant
            i <= lines@.len(),
            all == session::line_texts(lines@),
            session::line_texts(out@) == by_start(all.take(i as int)),
        decreases lines@.len() - i,
    {
        let ghost list = session::line_texts(out@);
        let l: Line = lines[i].clone();
        let mut k: usize = out.len();
        while k > 0 && out[k - 1].start_ms > l.start_ms
            invariant
                k <= out@.len(),
                list == session::line_texts(out@),
                forall|j: int| k <= j < out@.len() ==> (#[trigger] list[j]).start_ms > l.start_ms,
            decreases k,
        {
            k = k - 1;
        }
        proof {
            lemma_in_order_at(list, l@, k as nat);
            assert(session::line_texts(out@.insert(k as int, l)) == list.insert(k as int, l@));
            assert(all.take(i + 1).drop_last() == all.take(i as int));
            assert(all.take(i + 1).last() == l@);
        }
        out.insert(k, l);
        i = i + 1;
    }
    proof {
        assert(all.take(lines@.len() as int) == all);
    }
    out
}

pub fn is_reverted(edits: &[Edit], seq: usize) -> (r: bool)
    ensures
        r == reverted(session::edit_texts(edits@), seq as int),
{
    let mut i: usize = 0;
    let ghost es = session::edit_texts(edits@);
    while i < edits.len()
        invariant
            i <= edits@.len(),
            es == session::edit_texts(edits@),
            forall|k: int|
                0 <= k < i ==> !(#[trigger] es[k] matches EditText::Revert { target_seq, .. }
                    && target_seq == seq),
        decreases edits@.len() - i,
    {
        proof {
            assert(es[i as int] == edits@[i as int]@);
        }
        if let Edit::Revert { target_seq, .. } = &edits[i] {
            if *target_seq == seq {
                return true;
            }
        }
        i = i + 1;
    }
    false
}

/// The first line the target points at.
fn find(lines: &Vec<Line>, t: Target) -> (r: Option<usize>)
    ensures
        match r {
            Some(i) => is_first(session::line_texts(lines@), t, i as int),
            None => forall|i: int|
                0 <= i < lines@.len() ==> !aims(t, #[trigger] session::line_texts(lines@)[i]),
        },
{
    let mut i: usize = 0;
    let ghost ls = session::line_texts(lines@);
    while i < lines.len()
        invariant
            i <= lines@.len(),
            ls == session::line_texts(lines@),
            forall|j: int| 0 <= j < i ==> !aims(t, #[trigger] ls[j]),
        decreases lines@.len() - i,
    {
        proof {
            assert(ls[i as int] == lines@[i as int]@);
        }
        if lines[i].track == t.track && lines[i].start_ms == t.start_ms {
            return Some(i);
        }
        i = i + 1;
    }
    None
}

fn apply(lines: &mut Vec<Line>, e: &Edit)
    ensures
        session::line_texts(final(lines)@) == applied(session::line_texts(old(lines)@), e@),
{
    let ghost was = session::line_texts(lines@);
    match e {
        Edit::Repair { target, from, to, .. } => {
            if let Some(i) = find(lines, *target) {
                let mut l: Line = lines[i].clone();
                l.text = replace(l.text.as_str(), from.as_str(), to.as_str());
                proof {
                    assert(l@ == amended(was[i as int], e@));
                }
                lines.set(i, l);
            }
        },
        Edit::Speaker { target, name, .. } => {
            if let Some(i) = find(lines, *target) {
                let mut l: Line = lines[i].clone();
                l.speaker = Some(name.clone());
                proof {
                    assert(l@ == amended(was[i as int], e@));
                }
                lines.set(i, l);
            }
        },
        Edit::Revert { .. } => {},
    }
    proof {
        let now = session::line_texts(lines@);
        assert(now.len() == was.len());
        assert forall|i: int| 0 <= i < was.len() implies #[trigger] now[i] == applied(was, e@)[i] by {
        }
        assert(now == applied(was, e@));
    }
}

/// The records of `raw.jsonl` with the edits of `edits.jsonl` folded over them,
/// in the order the records were written: the two tracks are written one after
/// the other, so this is the order a reader can go on from.
pub fn transcript_appended(records: &[RawRecord], edits: &[Edit], verbatim: bool) -> (r: Vec<Line>)
    ensures
        session::line_texts(r@) == appended(
            session::record_texts(records@),
            session::edit_texts(edits@),
            verbatim,
        ),
{
    let ghost rs = session::record_texts(records@);
    let ghost es = session::edit_texts(edits@);
    let mut lines: Vec<Line> = Vec::new();
    let mut i: usize = 0;
    while i < records.len()
        invariant
            i <= records@.len(),
            rs == session::record_texts(records@),
            session::line_texts(lines@) == all_heard(rs).take(i as int),
        decreases records@.len() - i,
    {
        let l: Line = Line {
            track: records[i].track,
            start_ms: records[i].start_ms,
            end_ms: records[i].end_ms,
            speaker: None,
            text: records[i].text.clone(),
        };
        proof {
            assert(l@ == all_heard(rs)[i as int]);
            assert(session::line_texts(lines@.push(l)) == session::line_texts(lines@).push(l@));
            assert(all_heard(rs).take(i as int).push(l@) == all_heard(rs).take(i + 1));
        }
        lines.push(l);
        i = i + 1;
    }
    proof {
        assert(all_heard(rs).take(records@.len() as int) == all_heard(rs));
    }
    if !verbatim {
        let mut seq: usize = 0;
        while seq < edits.len()
            invariant
                seq <= edits@.len(),
                es == session::edit_texts(edits@),
                session::line_texts(lines@) == folded(all_heard(rs), es, seq as nat),
            decreases edits@.len() - seq,
        {
            proof {
                assert(es[seq as int] == edits@[seq as int]@);
            }
            if !is_reverted(edits, seq) {
                apply(&mut lines, &edits[seq]);
            }
            seq = seq + 1;
        }
    }
    lines
}

/// The records of `raw.jsonl` with the edits of `edits.jsonl` folded over them,
/// in order of start. With `verbatim`, the edit layer is ignored entirely.
pub fn transcript(records: &[RawRecord], edits: &[Edit], verbatim: bool) -> (r: Vec<Line>)
    ensures
        session::line_texts(r@) == told(
            session::record_texts(records@),
            session::edit_texts(edits@),
            verbatim,
        ),
{
    sort_by_start(transcript_appended(records, edits, verbatim))
}

proof fn lemma_applied_prefix(lines: Seq<LineText>, e: EditText, n: int)
    requires
        0 <= n <= lines.len(),
    ensures
        applied(lines, e).take(n) == applied(lines.take(n), e),
        applied(lines, e).len() == lines.len(),
{
    if let Some(t) = target_of(e) {
        assert forall|i: int| 0 <= i < n implies #[trigger] applied(lines, e).take(n)[i] == applied(
            lines.take(n),
            e,
        )[i] by {
            assert(lines.take(n)[i] == lines[i]);
            assert(forall|j: int| 0 <= j < i ==> #[trigger] lines.take(n)[j] == lines[j]);
            assert(is_first(lines, t, i) == is_first(lines.take(n), t, i)) by {
                if is_first(lines.take(n), t, i) {
                    assert forall|j: int| 0 <= j < i implies !aims(t, #[trigger] lines[j]) by {
                        assert(!aims(t, lines.take(n)[j]));
                    }
                }
            }
        }
    }
    assert(applied(lines, e).take(n) == applied(lines.take(n), e));
}

proof fn lemma_folded_prefix(lines: Seq<LineText>, edits: Seq<EditText>, k: nat, n: int)
    requires
        0 <= n <= lines.len(),
    ensures
        folded(lines, edits, k).take(n) == folded(lines.take(n), edits, k),
        folded(lines, edits, k).len() == lines.len(),
    decreases k,
{
    if k > 0 {
        lemma_folded_prefix(lines, edits, (k - 1) as nat, n);
        if !reverted(edits, k - 1) {
            lemma_applied_prefix(folded(lines, edits, (k - 1) as nat), edits[k - 1], n);
        }
    }
}

/// Lines keep their place as more are written: what a reader has seen is still
/// the beginning of what there is, so counting lines is enough to go on from.
pub proof fn written_lines_keep_their_place(
    records: Seq<RecordText>,
    more: Seq<RecordText>,
    edits: Seq<EditText>,
    verbatim: bool,
)
    ensures
        appended(records, edits, verbatim).len() == records.len(),
        appended(records + more, edits, verbatim).take(records.len() as int) == appended(
            records,
            edits,
            verbatim,
        ),
{
    let n = records.len() as int;
    let all = all_heard(records + more);
    assert(all.take(n) == all_heard(records));
    if !verbatim {
        lemma_folded_prefix(all, edits, edits.len(), n);
        lemma_folded_prefix(all_heard(records), edits, edits.len(), n);
    }
}

pub open spec fn ordered(lines: Seq<LineText>) -> bool {
    forall|i: int, j: int|
        0 <= i < j < lines.len() ==> (#[trigger] lines[i]).start_ms <= (
        #[trigger] lines[j]).start_ms
}

proof fn lemma_in_order(list: Seq<LineText>, l: LineText)
    requires
        ordered(list),
    ensures
        ordered(in_order(list, l)),
        in_order(list, l).to_multiset() =~= list.to_multiset().insert(l),
        in_order(list, l).len() == list.len() + 1,
        forall|i: int|
            0 <= i < in_order(list, l).len() ==> in_order(list, l)[i] == l || list.contains(
                #[trigger] in_order(list, l)[i],
            ),
    decreases list.len(),
{
    broadcast use vstd::seq_lib::group_to_multiset_ensures;

    let out = in_order(list, l);
    if list.len() > 0 && list.last().start_ms > l.start_ms {
        let front = list.drop_last();
        lemma_in_order(front, l);
        assert(front.push(list.last()) == list);
        let low = in_order(front, l);
        assert forall|i: int| 0 <= i < out.len() implies out[i] == l || list.contains(
            #[trigger] out[i],
        ) by {
            if i < low.len() {
                assert(out[i] == low[i]);
                if low[i] != l {
                    let k = choose|k: int| 0 <= k < front.len() && front[k] == low[i];
                    assert(list[k] == low[i]);
                }
            } else {
                assert(list[list.len() - 1] == out[i]);
            }
        }
        assert forall|i: int, j: int| 0 <= i < j < out.len() implies (#[trigger] out[i]).start_ms
            <= (#[trigger] out[j]).start_ms by {
            if j == low.len() {
                assert(low[i] == out[i]);
                if low[i] != l {
                    let k = choose|k: int| 0 <= k < front.len() && front[k] == low[i];
                    assert(list[k].start_ms <= list[list.len() - 1].start_ms);
                }
            } else {
                assert(low[i] == out[i] && low[j] == out[j]);
            }
        }
    } else {
        assert forall|i: int, j: int| 0 <= i < j < out.len() implies (#[trigger] out[i]).start_ms
            <= (#[trigger] out[j]).start_ms by {
            if j == list.len() && i < list.len() - 1 {
                assert(list[i].start_ms <= list[list.len() - 1].start_ms);
            }
        }
        assert forall|i: int| 0 <= i < out.len() implies out[i] == l || list.contains(
            #[trigger] out[i],
        ) by {
            if i < list.len() {
                assert(list[i] == out[i]);
            }
        }
    }
}

proof fn lemma_by_start(lines: Seq<LineText>)
    ensures
        ordered(by_start(lines)),
        by_start(lines).to_multiset() =~= lines.to_multiset(),
        by_start(lines).len() == lines.len(),
    decreases lines.len(),
{
    broadcast use vstd::seq_lib::group_to_multiset_ensures;

    if lines.len() > 0 {
        lemma_by_start(lines.drop_last());
        lemma_in_order(by_start(lines.drop_last()), lines.last());
        assert(lines.drop_last().push(lines.last()) == lines);
    }
}

/// A transcript runs forward in time, and sorting it loses and invents no line.
pub proof fn transcript_runs_forward(
    records: Seq<RecordText>,
    edits: Seq<EditText>,
    verbatim: bool,
)
    ensures
        ordered(told(records, edits, verbatim)),
        told(records, edits, verbatim).len() == records.len(),
        told(records, edits, verbatim).to_multiset() =~= (if verbatim {
            all_heard(records)
        } else {
            folded(all_heard(records), edits, edits.len())
        }).to_multiset(),
{
    lemma_by_start(all_heard(records));
    lemma_by_start(folded(all_heard(records), edits, edits.len()));
    edits_keep_times(all_heard(records), edits, edits.len());
}

/// The verbatim transcript does not depend on the edit layer at all.
pub proof fn verbatim_ignores_edits(
    records: Seq<RecordText>,
    edits: Seq<EditText>,
    others: Seq<EditText>,
)
    ensures
        told(records, edits, true) == told(records, others, true),
{
}

/// No edit moves a line or makes one appear or disappear: only words and names
/// change.
pub proof fn edits_keep_times(lines: Seq<LineText>, edits: Seq<EditText>, k: nat)
    ensures
        folded(lines, edits, k).len() == lines.len(),
        forall|i: int|
            0 <= i < lines.len() ==> {
                let l = #[trigger] folded(lines, edits, k)[i];
                l.track == lines[i].track && l.start_ms == lines[i].start_ms && l.end_ms
                    == lines[i].end_ms
            },
    decreases k,
{
    if k > 0 {
        edits_keep_times(lines, edits, (k - 1) as nat);
    }
}

pub proof fn lemma_fold_same(
    lines: Seq<LineText>,
    edits: Seq<EditText>,
    more: Seq<EditText>,
    k: nat,
)
    requires
        k <= edits.len() <= more.len(),
        forall|i: int| 0 <= i < edits.len() ==> #[trigger] more[i] == edits[i],
        forall|i: int| 0 <= i < k ==> reverted(edits, i) == #[trigger] reverted(more, i),
    ensures
        folded(lines, more, k) == folded(lines, edits, k),
    decreases k,
{
    if k > 0 {
        lemma_fold_same(lines, edits, more, (k - 1) as nat);
        assert(reverted(edits, k - 1) == reverted(more, k - 1));
        assert(more[k - 1] == edits[k - 1]);
    }
}

/// Undoing appends, and what it leaves is the transcript from before the edit:
/// a repair or a name, then its revert, is as if neither had been written.
pub proof fn revert_undoes(
    records: Seq<RecordText>,
    edits: Seq<EditText>,
    e: EditText,
    by: Seq<char>,
    at: Seq<char>,
)
    requires
        !(e is Revert),
    ensures
        told(
            records,
            edits.push(e).push(EditText::Revert { target_seq: edits.len(), by, at }),
            false,
        ) == told(records, edits, false),
{
    let undo = EditText::Revert { target_seq: edits.len(), by, at };
    let n = edits.len() as int;
    let more = edits.push(e).push(undo);
    let lines = all_heard(records);
    assert forall|i: int| 0 <= i < n implies reverted(edits, i) == #[trigger] reverted(more, i) by {
        if reverted(edits, i) {
            let k = choose|k: int|
                0 <= k < edits.len() && (#[trigger] edits[k] matches EditText::Revert {
                    target_seq,
                    ..
                } && target_seq == i);
            assert(more[k] == edits[k]);
        }
        if reverted(more, i) {
            let k = choose|k: int|
                0 <= k < more.len() && (#[trigger] more[k] matches EditText::Revert {
                    target_seq,
                    ..
                } && target_seq == i);
            assert(more[n] == e);
            assert(more[n + 1] == undo);
            assert(k < n);
            assert(edits[k] == more[k]);
        }
    }
    lemma_fold_same(lines, edits, more, n as nat);
    assert(reverted(more, n)) by {
        assert(more[n + 1] == undo);
    }
    assert(folded(lines, more, (n + 1) as nat) == folded(lines, more, n as nat));
    assert(more[n + 1] == undo);
    assert(folded(lines, more, (n + 2) as nat) == folded(lines, more, (n + 1) as nat));
}

/// One line of a transcript as `show` prints it: the time, the track, the
/// speaker if there is one, and the words.
pub open spec fn shown(l: LineText) -> Seq<char> {
    "["@ + session::clock((l.start_ms / 1000) as nat) + "] "@ + text::left_aligned(
        l.track.word(),
        4,
    ) + " "@ + text::left_aligned(
        match l.speaker {
            Some(s) => s,
            None => Seq::empty(),
        },
        10,
    ) + " "@ + l.text
}

/// One line of a transcript as `show` prints it.
pub fn show_line(l: &Line) -> (r: String)
    ensures
        r@ == shown(l@),
{
    let mut out: String = "[".to_owned();
    out.append(mmss(l.start_ms).as_str());
    out.append("] ");
    out.append(align_left(l.track.as_str(), 4).as_str());
    out.append(" ");
    match &l.speaker {
        Some(s) => out.append(align_left(s.as_str(), 10).as_str()),
        None => {
            let nobody: String = String::new();
            out.append(align_left(nobody.as_str(), 10).as_str());
        },
    }
    out.append(" ");
    out.append(l.text.as_str());
    out
}

/// The verbatim transcript is what was heard: every record in the order it was
/// written, its track, times and words as they are, and nobody named.
pub proof fn verbatim_is_what_was_heard(records: Seq<RecordText>, edits: Seq<EditText>, i: int)
    requires
        0 <= i < records.len(),
    ensures
        appended(records, edits, true).len() == records.len(),
        ({
            let l = appended(records, edits, true)[i];
            &&& l.track == records[i].track
            &&& l.start_ms == records[i].start_ms
            &&& l.end_ms == records[i].end_ms
            &&& l.text == records[i].text
            &&& l.speaker is None
        }),
        appended(records, Seq::empty(), false) == appended(records, edits, true),
{
}

proof fn lemma_start_order(list: Seq<LineText>, l: LineText, t: u64)
    requires
        ordered(list),
    ensures
        in_order(list, l).filter(|x: LineText| x.start_ms == t) == (if l.start_ms == t {
            list.filter(|x: LineText| x.start_ms == t).push(l)
        } else {
            list.filter(|x: LineText| x.start_ms == t)
        }),
    decreases list.len(),
{
    reveal(Seq::filter);
    let p = |x: LineText| x.start_ms == t;
    let all = in_order(list, l);
    if list.len() > 0 && list.last().start_ms > l.start_ms {
        let front = list.drop_last();
        assert forall|i: int, j: int| 0 <= i < j < front.len() implies (
        #[trigger] front[i]).start_ms <= (#[trigger] front[j]).start_ms by {
            assert(list[i].start_ms <= list[j].start_ms);
        }
        lemma_start_order(front, l, t);
        assert(all.drop_last() == in_order(front, l));
    } else {
        assert(all.drop_last() == list);
    }
}

/// Lines that start at one moment keep the order they were written in.
pub proof fn lines_that_start_together_keep_their_order(lines: Seq<LineText>, t: u64)
    ensures
        by_start(lines).filter(|x: LineText| x.start_ms == t) == lines.filter(
            |x: LineText| x.start_ms == t,
        ),
        ordered(by_start(lines)),
    decreases lines.len(),
{
    reveal(Seq::filter);
    if lines.len() > 0 {
        let front = lines.drop_last();
        lines_that_start_together_keep_their_order(front, t);
        lemma_start_order(by_start(front), lines.last(), t);
        lemma_by_start(lines);
    }
}

/// A repair changes words of the line it points at and nothing else: every `from`
/// in it becomes `to`. All other lines stay as they were, and so does who said what.
pub proof fn a_repair_changes_one_lines_words(
    records: Seq<RecordText>,
    edits: Seq<EditText>,
    t: Target,
    from: Seq<char>,
    to: Seq<char>,
    by: Seq<char>,
    at: Seq<char>,
    i: int,
)
    requires
        !reverted(edits, edits.len() as int),
        0 <= i < records.len(),
    ensures
        ({
            let was = appended(records, edits, false);
            let now = appended(
                records,
                edits.push(EditText::Repair { target: t, from, to, by, at }),
                false,
            );
            let aimed = records[i].track == t.track && records[i].start_ms == t.start_ms && forall|
                j: int,
            |
                0 <= j < i ==> (#[trigger] records[j]).track != t.track || records[j].start_ms
                    != t.start_ms;
            &&& was.len() == records.len()
            &&& now.len() == records.len()
            &&& !aimed ==> now[i] == was[i]
            &&& aimed ==> now[i].text == text::replaced(was[i].text, from, to) && now[i].speaker
                == was[i].speaker && now[i].track == was[i].track && now[i].start_ms
                == was[i].start_ms && now[i].end_ms == was[i].end_ms
        }),
{
    lemma_one_more(records, edits, EditText::Repair { target: t, from, to, by, at }, t, i);
}

/// Naming who spoke changes the name on the line it points at and nothing else. All
/// other lines stay as they were, and so do the words.
pub proof fn a_name_changes_one_lines_speaker(
    records: Seq<RecordText>,
    edits: Seq<EditText>,
    t: Target,
    name: Seq<char>,
    by: Seq<char>,
    at: Seq<char>,
    i: int,
)
    requires
        !reverted(edits, edits.len() as int),
        0 <= i < records.len(),
    ensures
        ({
            let was = appended(records, edits, false);
            let now = appended(
                records,
                edits.push(EditText::Speaker { target: t, name, by, at }),
                false,
            );
            let aimed = records[i].track == t.track && records[i].start_ms == t.start_ms && forall|
                j: int,
            |
                0 <= j < i ==> (#[trigger] records[j]).track != t.track || records[j].start_ms
                    != t.start_ms;
            &&& was.len() == records.len()
            &&& now.len() == records.len()
            &&& !aimed ==> now[i] == was[i]
            &&& aimed ==> now[i].speaker == Some(name) && now[i].text == was[i].text && now[i].track
                == was[i].track && now[i].start_ms == was[i].start_ms && now[i].end_ms
                == was[i].end_ms
        }),
{
    lemma_one_more(records, edits, EditText::Speaker { target: t, name, by, at }, t, i);
}

proof fn lemma_one_more(
    records: Seq<RecordText>,
    edits: Seq<EditText>,
    e: EditText,
    t: Target,
    i: int,
)
    requires
        !reverted(edits, edits.len() as int),
        0 <= i < records.len(),
        target_of(e) == Some(t),
    ensures
        ({
            let was = appended(records, edits, false);
            let now = appended(records, edits.push(e), false);
            let aimed = records[i].track == t.track && records[i].start_ms == t.start_ms && forall|
                j: int,
            |
                0 <= j < i ==> (#[trigger] records[j]).track != t.track || records[j].start_ms
                    != t.start_ms;
            &&& was.len() == records.len()
            &&& now.len() == records.len()
            &&& now[i] == (if aimed {
                amended(was[i], e)
            } else {
                was[i]
            })
        }),
{
    let heard = all_heard(records);
    let all = edits.push(e);
    let n = edits.len();
    assert forall|k: int| 0 <= k <= n implies reverted(edits, k) == #[trigger] reverted(all, k) by {
        if reverted(edits, k) {
            let r = choose|r: int|
                0 <= r < edits.len() && (#[trigger] edits[r] matches EditText::Revert {
                    target_seq,
                    ..
                } && target_seq == k);
            assert(all[r] == edits[r]);
        }
        if reverted(all, k) {
            let r = choose|r: int|
                0 <= r < all.len() && (#[trigger] all[r] matches EditText::Revert {
                    target_seq,
                    ..
                } && target_seq == k);
            assert(r < n);
            assert(all[r] == edits[r]);
        }
    }
    lemma_fold_same(heard, edits, all, n);
    let was = folded(heard, edits, n);
    edits_keep_times(heard, edits, n);
    assert(reverted(edits, n as int) == reverted(all, n as int));
    assert(folded(heard, all, n + 1) == applied(was, e));
    let aimed = records[i].track == t.track && records[i].start_ms == t.start_ms && forall|j: int|
        0 <= j < i ==> (#[trigger] records[j]).track != t.track || records[j].start_ms
            != t.start_ms;
    assert(aimed == is_first(was, t, i)) by {
        if aimed {
            assert forall|j: int| 0 <= j < i implies !aims(t, #[trigger] was[j]) by {
                assert(records[j].track != t.track || records[j].start_ms != t.start_ms);
                assert(heard[j].track == was[j].track);
            }
        }
        if is_first(was, t, i) {
            assert forall|j: int| 0 <= j < i implies (#[trigger] records[j]).track != t.track
                || records[j].start_ms != t.start_ms by {
                assert(!aims(t, was[j]));
                assert(heard[j].track == was[j].track);
            }
        }
        assert(heard[i].track == was[i].track);
    }
}

/// A revert takes back the edit it points at wherever either stands: the transcript
/// is as if that edit had never done anything, and all the others count as before.
pub proof fn a_revert_takes_back_one_edit(
    records: Seq<RecordText>,
    edits: Seq<EditText>,
    k: nat,
    by: Seq<char>,
    at: Seq<char>,
)
    requires
        k < edits.len(),
        !(edits[k as int] is Revert),
    ensures
        told(records, edits.push(EditText::Revert { target_seq: k, by, at }), false) == told(
            records,
            edits.update(k as int, EditText::Revert { target_seq: k, by, at }),
            false,
        ),
        folded(all_heard(records), edits.push(EditText::Revert { target_seq: k, by, at }), k + 1)
            == folded(all_heard(records), edits.push(EditText::Revert { target_seq: k, by, at }), k),
{
    let r = EditText::Revert { target_seq: k, by, at };
    let a = edits.push(r);
    let b = edits.update(k as int, r);
    let heard = all_heard(records);
    assert(a[edits.len() as int] == r);
    assert(reverted(a, k as int));
    assert(b[k as int] == r);
    assert(reverted(b, k as int));
    assert forall|s: int| reverted(a, s) == #[trigger] reverted(b, s) by {
        if s != k {
            if reverted(a, s) {
                let w = choose|w: int|
                    0 <= w < a.len() && (#[trigger] a[w] matches EditText::Revert {
                        target_seq,
                        ..
                    } && target_seq == s);
                assert(w < edits.len() && w != k);
                assert(b[w] == a[w]);
            }
            if reverted(b, s) {
                let w = choose|w: int|
                    0 <= w < b.len() && (#[trigger] b[w] matches EditText::Revert {
                        target_seq,
                        ..
                    } && target_seq == s);
                assert(w != k);
                assert(b[w] == a[w]);
            }
        }
    }
    lemma_fold_alike(heard, a, b, k as int, edits.len());
    assert(folded(heard, a, a.len()) == applied(folded(heard, a, edits.len()), r) || reverted(
        a,
        edits.len() as int,
    ));
}

proof fn lemma_fold_alike(
    lines: Seq<LineText>,
    a: Seq<EditText>,
    b: Seq<EditText>,
    k: int,
    n: nat,
)
    requires
        n <= a.len(),
        n <= b.len(),
        forall|s: int| reverted(a, s) == #[trigger] reverted(b, s),
        forall|s: int| 0 <= s < n && s != k ==> #[trigger] a[s] == b[s],
        reverted(a, k),
    ensures
        folded(lines, a, n) == folded(lines, b, n),
    decreases n,
{
    if n > 0 {
        lemma_fold_alike(lines, a, b, k, (n - 1) as nat);
        assert(reverted(a, n - 1) == reverted(b, n - 1));
    }
}

/// A line is shown by when it starts, in minutes and seconds, its track, who spoke,
/// a blank where that is not known, and the words.
pub proof fn a_line_is_shown_with_time_track_and_speaker(l: LineText)
    ensures
        ({
            let who = match l.speaker {
                Some(s) => s,
                None => Seq::empty(),
            };
            let head = "["@ + session::clock((l.start_ms / 1000) as nat) + "] "@ + l.track.word();
            let tail = text::left_aligned(who, 10) + " "@ + l.text;
            &&& text::starts_with(shown(l), head)
            &&& shown(l).len() == head.len() + 1 + tail.len()
            &&& shown(l).skip(head.len() as int + 1) == tail
        }),
{
    reveal_strlit("room");
    reveal_strlit("call");
    reveal_strlit(" ");
    let who = match l.speaker {
        Some(s) => s,
        None => Seq::empty(),
    };
    let head = "["@ + session::clock((l.start_ms / 1000) as nat) + "] "@ + l.track.word();
    let tail = text::left_aligned(who, 10) + " "@ + l.text;
    assert(l.track.word().len() == 4);
    assert(text::left_aligned(l.track.word(), 4) == l.track.word());
    assert(shown(l) == head + " "@ + tail);
    assert(shown(l).take(head.len() as int) == head);
    assert(shown(l).skip(head.len() as int + 1) == tail);
}

} // verus!
