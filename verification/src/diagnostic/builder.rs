//! The label classifier and event builder: a single forward sweep over the
//! source lines that turns a label set into an ordered chunk sequence with
//! the shared indent trim, the line number width and the multi-line label
//! capacity precomputed.

use crate::diagnostic::body::BodyChunk;
use crate::diagnostic::body::BodyDescriptor;
use crate::diagnostic::body::singleline_label_on;
use crate::diagnostic::Label;
use crate::source::Source;
use crate::source::SourceSpan;
use vstd::prelude::*;

verus! {

/// Whether a label sequence is sorted by span start, descending; equal
/// starts keep their order, so the sequence read backwards yields labels in
/// ascending start order, earliest first.
pub open spec fn sorted_desc_by_start(ls: Seq<Label>) -> bool {
    forall|i: int, j: int|
        0 <= i < j < ls.len() ==> (#[trigger] ls[i]).span.spec_start() >= (
        #[trigger] ls[j]).span.spec_start()
}

/// Insertion of a label into a descending-sorted sequence, after every label
/// with an equal or larger start.
pub open spec fn insert_desc(sorted: Seq<Label>, x: Label) -> Seq<Label>
    decreases sorted.len(),
{
    if sorted.len() == 0 {
        seq![x]
    } else if sorted[0].span.spec_start() >= x.span.spec_start() {
        seq![sorted[0]] + insert_desc(sorted.drop_first(), x)
    } else {
        seq![x] + sorted
    }
}

/// The stable sort of a label sequence by span start, descending.
pub open spec fn sort_desc(ls: Seq<Label>) -> Seq<Label>
    decreases ls.len(),
{
    if ls.len() == 0 {
        Seq::<Label>::empty()
    } else {
        insert_desc(sort_desc(ls.drop_last()), ls.last())
    }
}

proof fn lemma_insert_desc_props(sorted: Seq<Label>, x: Label)
    requires
        sorted_desc_by_start(sorted),
    ensures
        sorted_desc_by_start(insert_desc(sorted, x)),
        insert_desc(sorted, x).len() == sorted.len() + 1,
        forall|y: Label|
            #[trigger] insert_desc(sorted, x).contains(y) <==> (sorted.contains(y) || y == x),
    decreases sorted.len(),
{
    let r = insert_desc(sorted, x);
    if sorted.len() == 0 {
        assert forall|y: Label| #[trigger] r.contains(y) implies (sorted.contains(y) || y == x) by {
            let k = choose|k: int| 0 <= k < r.len() && r[k] == y;
            assert(r[k] == x);
        }
        assert(r.contains(x)) by {
            assert(r[0] == x);
        }
    } else if sorted[0].span.spec_start() >= x.span.spec_start() {
        assert(sorted_desc_by_start(sorted.drop_first())) by {
            assert(forall|i: int, j: int|
                0 <= i < j < sorted.drop_first().len() ==> (#[trigger] sorted.drop_first()[i]) == sorted[i
                    + 1] && (#[trigger] sorted.drop_first()[j]) == sorted[j + 1]);
        }
        lemma_insert_desc_props(sorted.drop_first(), x);
        let rr = insert_desc(sorted.drop_first(), x);
        assert(r == seq![sorted[0]] + rr);
        assert(sorted_desc_by_start(r)) by {
            assert forall|i: int, j: int| 0 <= i < j < r.len() implies (#[trigger] r[i]).span.spec_start()
                >= (#[trigger] r[j]).span.spec_start() by {
                if i == 0 {
                    assert(r[j] == rr[j - 1]);
                    assert(rr.contains(rr[j - 1]));
                    if sorted.drop_first().contains(rr[j - 1]) {
                        let k = choose|k: int|
                            0 <= k < sorted.drop_first().len() && sorted.drop_first()[k] == rr[j
                                - 1];
                        assert(sorted[k + 1] == rr[j - 1]);
                    }
                } else {
                    assert(r[i] == rr[i - 1] && r[j] == rr[j - 1]);
                }
            }
        }
        assert forall|y: Label| #[trigger] r.contains(y) implies (sorted.contains(y) || y == x) by {
            let k = choose|k: int| 0 <= k < r.len() && r[k] == y;
            if k == 0 {
                assert(sorted[0] == y);
            } else {
                assert(rr[k - 1] == y);
                assert(rr.contains(y));
                if sorted.drop_first().contains(y) {
                    let m = choose|m: int|
                        0 <= m < sorted.drop_first().len() && sorted.drop_first()[m] == y;
                    assert(sorted[m + 1] == y);
                }
            }
        }
        assert forall|y: Label| (sorted.contains(y) || y == x) implies #[trigger] r.contains(y) by {
            if y == x || sorted.drop_first().contains(y) {
                assert(rr.contains(y));
                let k = choose|k: int| 0 <= k < rr.len() && rr[k] == y;
                assert(r[k + 1] == y);
            } else {
                let k = choose|k: int| 0 <= k < sorted.len() && sorted[k] == y;
                if k == 0 {
                    assert(r[0] == y);
                } else {
                    assert(sorted.drop_first()[k - 1] == y);
                    assert(sorted.drop_first().contains(y));
                }
            }
        }
    } else {
        assert(r == seq![x] + sorted);
        assert forall|i: int, j: int| 0 <= i < j < r.len() implies (#[trigger] r[i]).span.spec_start()
            >= (#[trigger] r[j]).span.spec_start() by {
            if i > 0 {
                assert(r[i] == sorted[i - 1] && r[j] == sorted[j - 1]);
            } else {
                assert(r[j] == sorted[j - 1]);
                assert(sorted.contains(sorted[j - 1]));
                if j - 1 > 0 {
                    assert(sorted[0].span.spec_start() >= sorted[j - 1].span.spec_start());
                }
            }
        }
        assert forall|y: Label| #[trigger] r.contains(y) implies (sorted.contains(y) || y == x) by {
            let k = choose|k: int| 0 <= k < r.len() && r[k] == y;
            if k > 0 {
                assert(sorted[k - 1] == y);
            }
        }
        assert forall|y: Label| (sorted.contains(y) || y == x) implies #[trigger] r.contains(y) by {
            if y == x {
                assert(r[0] == y);
            } else {
                let k = choose|k: int| 0 <= k < sorted.len() && sorted[k] == y;
                assert(r[k + 1] == y);
            }
        }
    }
}

/// The sort yields a descending-sorted sequence holding exactly the input's
/// labels.
pub proof fn lemma_sort_desc_props(ls: Seq<Label>)
    ensures
        sorted_desc_by_start(sort_desc(ls)),
        sort_desc(ls).len() == ls.len(),
        forall|y: Label| #[trigger] sort_desc(ls).contains(y) <==> ls.contains(y),
    decreases ls.len(),
{
    if ls.len() > 0 {
        lemma_sort_desc_props(ls.drop_last());
        lemma_insert_desc_props(sort_desc(ls.drop_last()), ls.last());
        assert forall|y: Label| #[trigger] sort_desc(ls).contains(y) implies ls.contains(y) by {
            if ls.drop_last().contains(y) {
                let k = choose|k: int| 0 <= k < ls.drop_last().len() && ls.drop_last()[k] == y;
                assert(ls[k] == y);
            } else {
                assert(ls[ls.len() - 1] == y);
            }
        }
        assert forall|y: Label| ls.contains(y) implies #[trigger] sort_desc(ls).contains(y) by {
            let k = choose|k: int| 0 <= k < ls.len() && ls[k] == y;
            if k < ls.len() - 1 {
                assert(ls.drop_last()[k] == y);
                assert(ls.drop_last().contains(y));
            }
        }
    }
}

/// Sorts labels by their span start, in reverse order, stably: the vector
/// becomes a stack whose popping yields labels in ascending start order.
fn sort_labels(labels: &mut Vec<Label>)
    ensures
        final(labels)@ == sort_desc(old(labels)@),
{
    let ghost input = labels@;
    if labels.len() < 2 {
        proof {
            if input.len() == 1 {
                assert(sort_desc(input.drop_last()) =~= Seq::<Label>::empty());
                assert(sort_desc(input) =~= input);
            } else {
                assert(sort_desc(input) =~= input);
            }
        }
        return ;
    }
    proof {
        assert(input.take(1).drop_last() =~= Seq::<Label>::empty());
        assert(sort_desc(Seq::<Label>::empty()) == Seq::<Label>::empty());
        assert(sort_desc(input.take(1)) == insert_desc(
            Seq::<Label>::empty(),
            input.take(1).last(),
        ));
        assert(insert_desc(Seq::<Label>::empty(), input.take(1).last()) == seq![input.take(
            1,
        ).last()]);
        assert(sort_desc(input.take(1)) =~= input.take(1));
    }
    let mut i: usize = 1;
    while i < labels.len()
        invariant
            labels@.len() == input.len(),
            1 <= i || input.len() == 0,
            i <= labels@.len(),
            labels@.take(i as int) == sort_desc(input.take(i as int)),
            labels@.skip(i as int) == input.skip(i as int),
        decreases labels.len() - i,
    {
        let ghost pre = labels@;
        let x_start = labels[i].span.start();
        let mut j: usize = 0;
        while j < i && labels[j].span.start() >= x_start
            invariant
                0 <= j <= i < labels@.len(),
                labels@ == pre,
                x_start == labels@[i as int].span.spec_start(),
                forall|k: int|
                    0 <= k < j ==> (#[trigger] labels@[k]).span.spec_start() >= x_start,
            decreases i - j,
        {
            j += 1;
        }
        let x = labels.remove(i);
        labels.insert(j, x);
        proof {
            let ii = i as int;
            let si = sort_desc(input.take(ii));
            lemma_sort_desc_props(input.take(ii));
            lemma_insert_desc_at(si, x, j as int);
            assert(pre.skip(ii)[0] == pre[ii]);
            assert(input.skip(ii)[0] == input[ii]);
            assert(pre[ii] == input[ii]);
            assert(input.take(ii + 1).drop_last() =~= input.take(ii));
            assert(input.take(ii + 1).last() == input[ii]);
            let mid = si.take(j as int) + seq![x] + si.skip(j as int);
            assert(pre.take(ii) == si);
            assert(labels@ =~= mid + pre.skip(ii + 1));
            assert(labels@.take(ii + 1) =~= mid);
            assert(labels@.take(ii + 1) == sort_desc(input.take(ii + 1)));
            assert forall|k: int|
                0 <= k < pre.skip(ii + 1).len() implies #[trigger] pre.skip(ii + 1)[k]
                    == input.skip(ii + 1)[k] by {
                assert(pre.skip(ii)[k + 1] == input.skip(ii)[k + 1]);
            }
            assert(pre.skip(ii + 1) =~= input.skip(ii + 1));
            assert(labels@.skip(ii + 1) =~= input.skip(ii + 1));
        }
        i += 1;
    }
    proof {
        assert(input.take(input.len() as int) =~= input);
        assert(labels@.take(labels@.len() as int) =~= labels@);
    }
}

/// Inserting into a descending-sorted sequence places the element right
/// before the first strictly smaller start.
proof fn lemma_insert_desc_at(sorted: Seq<Label>, x: Label, j: int)
    requires
        0 <= j <= sorted.len(),
        forall|k: int| 0 <= k < j ==> (#[trigger] sorted[k]).span.spec_start() >= x.span.spec_start(),
        j < sorted.len() ==> sorted[j].span.spec_start() < x.span.spec_start(),
    ensures
        insert_desc(sorted, x) == sorted.take(j) + seq![x] + sorted.skip(j),
    decreases j,
{
    if j == 0 {
        if sorted.len() == 0 {
            assert(insert_desc(sorted, x) =~= sorted.take(0) + seq![x] + sorted.skip(0));
        } else {
            assert(insert_desc(sorted, x) =~= sorted.take(0) + seq![x] + sorted.skip(0));
        }
    } else {
        assert(forall|k: int|
            0 <= k < j - 1 ==> (#[trigger] sorted.drop_first()[k]) == sorted[k + 1]);
        if j - 1 < sorted.drop_first().len() {
            assert(sorted.drop_first()[j - 1] == sorted[j]);
        }
        lemma_insert_desc_at(sorted.drop_first(), x, j - 1);
        assert(insert_desc(sorted, x) =~= sorted.take(j) + seq![x] + sorted.skip(j));
    }
}

/// The labels popped off the stack so far, earliest start first.
pub open spec fn popped(stack: Seq<Label>, p: int) -> Seq<Label>
    decreases p,
{
    if p <= 0 || stack.len() == 0 {
        Seq::<Label>::empty()
    } else {
        seq![stack.last()] + popped(stack.drop_last(), p - 1)
    }
}

proof fn lemma_popped_succ(stack: Seq<Label>, p: int)
    requires
        0 <= p < stack.len(),
    ensures
        popped(stack, p + 1) == popped(stack, p).push(stack[stack.len() - 1 - p]),
    decreases p,
{
    if p == 0 {
        assert(popped(stack, 1) == seq![stack.last()] + popped(stack.drop_last(), 0));
        assert(popped(stack.drop_last(), 0) =~= Seq::<Label>::empty());
        assert(popped(stack, 0) =~= Seq::<Label>::empty());
        assert(popped(stack, 1) =~= popped(stack, 0).push(stack[stack.len() - 1]));
    } else {
        lemma_popped_succ(stack.drop_last(), p - 1);
        assert(stack.drop_last()[stack.len() - 1 - p] == stack[stack.len() - 1 - p]);
        assert(popped(stack, p + 1) =~= popped(stack, p).push(stack[stack.len() - 1 - p]));
    }
}

/// How many labels at the top of the stack start on line `cur`.
pub open spec fn pops(src: Source, stack: Seq<Label>, cur: int) -> int
    decreases stack.len(),
{
    if stack.len() == 0 {
        0
    } else if src.spec_line_of(stack.last().span.spec_start() as int) != cur {
        0
    } else {
        1 + pops(src, stack.drop_last(), cur)
    }
}

proof fn lemma_pops_bounds(src: Source, stack: Seq<Label>, cur: int)
    ensures
        0 <= pops(src, stack, cur) <= stack.len(),
    decreases stack.len(),
{
    if stack.len() > 0 {
        lemma_pops_bounds(src, stack.drop_last(), cur);
    }
}

/// The stack keeps `p` popped elements off its end.
proof fn lemma_pops_value(src: Source, stack: Seq<Label>, cur: int, p: int)
    requires
        0 <= p <= stack.len(),
        forall|k: int|
            stack.len() - p <= k < stack.len() ==> src.spec_line_of(
                (#[trigger] stack[k]).span.spec_start() as int,
            ) == cur,
        p < stack.len() ==> src.spec_line_of(stack[stack.len() - 1 - p].span.spec_start() as int)
            != cur,
    ensures
        pops(src, stack, cur) == p,
    decreases p,
{
    if p == 0 {
    } else {
        assert(src.spec_line_of(stack.last().span.spec_start() as int) == cur);
        assert(forall|k: int|
            stack.drop_last().len() - (p - 1) <= k < stack.drop_last().len() ==> (
            #[trigger] stack.drop_last()[k]) == stack[k]);
        if p - 1 < stack.drop_last().len() {
            assert(stack.drop_last()[stack.drop_last().len() - 1 - (p - 1)] == stack[stack.len()
                - 1 - p]);
        }
        lemma_pops_value(src, stack.drop_last(), cur, p - 1);
    }
}

/// The single-line labels among a consumed run, in order.
pub open spec fn singles_of(src: Source, ls: Seq<Label>) -> Seq<Label>
    decreases ls.len(),
{
    if ls.len() == 0 {
        Seq::<Label>::empty()
    } else if crate::diagnostic::body::is_single(src, ls.last()) {
        singles_of(src, ls.drop_last()).push(ls.last())
    } else {
        singles_of(src, ls.drop_last())
    }
}

/// The multi-line labels among a consumed run, in order.
pub open spec fn multis_of(src: Source, ls: Seq<Label>) -> Seq<Label>
    decreases ls.len(),
{
    if ls.len() == 0 {
        Seq::<Label>::empty()
    } else if crate::diagnostic::body::is_single(src, ls.last()) {
        multis_of(src, ls.drop_last())
    } else {
        multis_of(src, ls.drop_last()).push(ls.last())
    }
}

/// Identifiers paired with spans for newly started multi-line labels.
pub open spec fn with_ids(ms: Seq<Label>, nid: int) -> Seq<(usize, SourceSpan)> {
    Seq::new(ms.len(), |i: int| ((nid + i) as usize, ms[i].span))
}

/// Whether an active multi-line label's last line is `cur`.
pub open spec fn ends_on(src: Source, e: (usize, SourceSpan), cur: int) -> bool {
    src.spec_line_of(Source::spec_effective_end(e.1)) == cur
}

/// The identifiers of active labels finishing on line `cur`, in activation
/// order.
pub open spec fn fins_of(src: Source, active: Seq<(usize, SourceSpan)>, cur: int) -> Seq<usize>
    decreases active.len(),
{
    if active.len() == 0 {
        Seq::<usize>::empty()
    } else if ends_on(src, active.last(), cur) {
        fins_of(src, active.drop_last(), cur).push(active.last().0)
    } else {
        fins_of(src, active.drop_last(), cur)
    }
}

/// The active labels not finishing on line `cur`, in activation order.
pub open spec fn still_of(src: Source, active: Seq<(usize, SourceSpan)>, cur: int) -> Seq<
    (usize, SourceSpan),
>
    decreases active.len(),
{
    if active.len() == 0 {
        Seq::<(usize, SourceSpan)>::empty()
    } else if ends_on(src, active.last(), cur) {
        still_of(src, active.drop_last(), cur)
    } else {
        still_of(src, active.drop_last(), cur).push(active.last())
    }
}

/// Clamps an integer to be non-negative.
pub open spec fn clamp0(n: int) -> int {
    if n >= 0 {
        n
    } else {
        0
    }
}

/// The chunk stream of the sweep: starting from a sorted label stack, the
/// active multi-line labels, the next free identifier and the previously
/// emitted line, emit one chunk per line until both the stack and the active
/// set are exhausted. Lines outside an open multi-line region are skipped;
/// lines inside one are emitted even without events of their own.
pub open spec fn sweep(
    src: Source,
    stack: Seq<Label>,
    active: Seq<(usize, SourceSpan)>,
    nid: int,
    cur_prev: int,
) -> Seq<crate::diagnostic::body::ChunkModel>
    decreases stack.len(), clamp0(src.spec_lines().len() - cur_prev),
    via sweep_decreases
{
    if stack.len() == 0 && active.len() == 0 {
        Seq::<crate::diagnostic::body::ChunkModel>::empty()
    } else {
        let cur = if active.len() == 0 {
            src.spec_line_of(stack.last().span.spec_start() as int)
        } else {
            cur_prev + 1
        };
        if cur < 0 || cur >= src.spec_lines().len() || (active.len() == 0 && cur <= cur_prev) {
            Seq::<crate::diagnostic::body::ChunkModel>::empty()
        } else {
            let p = pops(src, stack, cur);
            let consumed = popped(stack, p);
            let singles = singles_of(src, consumed);
            let multis = multis_of(src, consumed);
            let active1 = active + with_ids(multis, nid);
            let chunk = crate::diagnostic::body::ChunkModel {
                line: src.spec_lines()[cur],
                singles,
                starts: multis,
                fins: fins_of(src, active1, cur),
            };
            seq![chunk] + sweep(
                src,
                stack.take(stack.len() - p),
                still_of(src, active1, cur),
                nid + multis.len(),
                cur,
            )
        }
    }
}

/// Whether some active entry carries an identifier and ends on `cur`.
pub open spec fn active_has_end(
    src: Source,
    active: Seq<(usize, SourceSpan)>,
    cur: int,
    id: usize,
) -> bool {
    exists|j: int| 0 <= j < active.len() && (#[trigger] active[j]).0 == id && ends_on(
        src,
        active[j],
        cur,
    )
}

/// Whether an entry occurs in an active set.
pub open spec fn active_has_entry(active: Seq<(usize, SourceSpan)>, e: (usize, SourceSpan)) -> bool {
    exists|j: int| 0 <= j < active.len() && #[trigger] active[j] == e
}

/// Splitting an active set by its ending line keeps every identifier
/// exactly once: the finishing and remaining parts partition it.
proof fn lemma_active_split(src: Source, active: Seq<(usize, SourceSpan)>, cur: int)
    ensures
        fins_of(src, active, cur).len() + still_of(src, active, cur).len() == active.len(),
        forall|i: int|
            0 <= i < fins_of(src, active, cur).len() ==> active_has_end(
                src,
                active,
                cur,
                #[trigger] fins_of(src, active, cur)[i],
            ),
        forall|i: int|
            0 <= i < still_of(src, active, cur).len() ==> active_has_entry(
                active,
                #[trigger] still_of(src, active, cur)[i],
            ) && !ends_on(src, still_of(src, active, cur)[i], cur),
    decreases active.len(),
{
    if active.len() > 0 {
        lemma_active_split(src, active.drop_last(), cur);
        let prev = active.drop_last();
        assert(forall|j: int| 0 <= j < prev.len() ==> #[trigger] prev[j] == active[j]);
        assert(active[active.len() - 1] == active.last());
        let f = fins_of(src, active, cur);
        let fp = fins_of(src, prev, cur);
        assert forall|i: int| 0 <= i < f.len() implies active_has_end(
            src,
            active,
            cur,
            #[trigger] f[i],
        ) by {
            if ends_on(src, active.last(), cur) && i == f.len() - 1 {
                assert(active[active.len() - 1].0 == f[i] && ends_on(
                    src,
                    active[active.len() - 1],
                    cur,
                ));
            } else {
                assert(f[i] == fp[i]);
                assert(active_has_end(src, prev, cur, fp[i]));
                let j = choose|j: int|
                    0 <= j < prev.len() && (#[trigger] prev[j]).0 == fp[i] && ends_on(
                        src,
                        prev[j],
                        cur,
                    );
                assert(active[j].0 == f[i] && ends_on(src, active[j], cur));
            }
        }
        let s = still_of(src, active, cur);
        let sp = still_of(src, prev, cur);
        assert forall|i: int| 0 <= i < s.len() implies active_has_entry(active, #[trigger] s[i])
            && !ends_on(src, s[i], cur) by {
            if !ends_on(src, active.last(), cur) && i == s.len() - 1 {
                assert(active[active.len() - 1] == s[i]);
            } else {
                assert(s[i] == sp[i]);
                assert(active_has_entry(prev, sp[i]) && !ends_on(src, sp[i], cur));
                let j = choose|j: int| 0 <= j < prev.len() && #[trigger] prev[j] == sp[i];
                assert(active[j] == s[i]);
            }
        }
    }
}

#[via_fn]
proof fn sweep_decreases(
    src: Source,
    stack: Seq<Label>,
    active: Seq<(usize, SourceSpan)>,
    nid: int,
    cur_prev: int,
) {
    if !(stack.len() == 0 && active.len() == 0) {
        let cur = if active.len() == 0 {
            src.spec_line_of(stack.last().span.spec_start() as int)
        } else {
            cur_prev + 1
        };
        if !(cur < 0 || cur >= src.spec_lines().len() || (active.len() == 0 && cur
            <= cur_prev)) {
            lemma_pops_bounds(src, stack, cur);
            if active.len() == 0 {
                lemma_pops_bounds(src, stack.drop_last(), cur);
                assert(pops(src, stack, cur) >= 1);
            }
        }
    }
}

/// The line index of the previously emitted chunk, or the sentinel before
/// any chunk was emitted.
pub open spec fn cur_prev_of(result: Seq<BodyChunk>) -> int {
    if result.len() == 0 {
        -1
    } else {
        result.last().line.spec_index() as int
    }
}

/// The not-yet-consumed label stack during the sweep: sorted descending by
/// start, every label renderable, and none starting at or before the
/// previously emitted line.
pub open spec fn stack_ok(src: Source, stack: Seq<Label>, cur_prev: int) -> bool {
    &&& sorted_desc_by_start(stack)
    &&& forall|i: int|
        0 <= i < stack.len() ==> crate::diagnostic::body::label_renderable(
            src,
            #[trigger] stack[i],
        )
    &&& forall|i: int|
        0 <= i < stack.len() ==> src.spec_line_of((#[trigger] stack[i]).span.spec_start() as int)
            > cur_prev
}

/// The open multi-line labels during the sweep: distinct identifiers below
/// the next free one, spans resolvable, and none ending at or before the
/// previously emitted line.
pub open spec fn active_ok(
    src: Source,
    active: Seq<(usize, SourceSpan)>,
    nid: int,
    cur_prev: int,
) -> bool {
    &&& forall|i: int| 0 <= i < active.len() ==> ((#[trigger] active[i]).0 as int) < nid
    &&& forall|i: int, j: int|
        0 <= i < j < active.len() ==> (#[trigger] active[i]).0 != (#[trigger] active[j]).0
    &&& forall|i: int|
        0 <= i < active.len() ==> {
            let e = #[trigger] active[i];
            &&& e.1.wf()
            &&& src.spec_lines().len() > 0
            &&& Source::spec_effective_end(e.1) <= src.bytes().len()
            &&& src.spec_line_of(Source::spec_effective_end(e.1)) > cur_prev
        }
}

/// Struct that takes care of building a descriptor. Keeping the state for
/// this in it's own struct is easier.
pub struct DescriptorBuilder<'a> {
    source: &'a Source,
    labels: Vec<Label>,
    active_labels: Vec<(usize, SourceSpan)>,
    multiline_id: usize,
    current_line: usize,
    indent_trim: usize,
    result: Vec<BodyChunk>,
}

impl<'a> DescriptorBuilder<'a> {
    /// The work stack, as seen by contracts.
    pub closed spec fn spec_stack(self) -> Seq<Label> {
        self.labels@
    }

    /// The open multi-line labels, as seen by contracts.
    pub closed spec fn spec_active(self) -> Seq<(usize, SourceSpan)> {
        self.active_labels@
    }

    /// The next free multi-line identifier, as seen by contracts.
    pub closed spec fn spec_nid(self) -> usize {
        self.multiline_id
    }

    /// The chunks emitted so far, as seen by contracts.
    pub closed spec fn spec_result(self) -> Seq<BodyChunk> {
        self.result@
    }

    /// The running indent trim, as seen by contracts.
    pub closed spec fn spec_trim(self) -> usize {
        self.indent_trim
    }

    /// The source swept over, as seen by contracts.
    pub closed spec fn spec_source(self) -> Source {
        *self.source
    }

    /// The state the sweep maintains between chunks.
    pub closed spec fn inv(self) -> bool {
        let src = *self.source;
        let result = self.result@;
        let cp = cur_prev_of(result);
        &&& src.wf()
        &&& stack_ok(src, self.labels@, cp)
        &&& active_ok(src, self.active_labels@, self.multiline_id as int, cp)
        &&& crate::diagnostic::body::chunks_wf(src, result)
        &&& self.multiline_id == crate::diagnostic::body::starts_count(
            result,
            result.len() as int,
        )
        &&& self.active_labels@.len() == crate::diagnostic::body::starts_count(
            result,
            result.len() as int,
        ) - crate::diagnostic::body::finishes_count(result, result.len() as int)
        &&& forall|i: int|
            0 <= i < self.active_labels@.len() ==> !crate::diagnostic::body::finished_in(
                result,
                result.len() as int,
                (#[trigger] self.active_labels@[i]).0,
            )
        &&& self.indent_trim == crate::diagnostic::body::min_indent(result, result.len() as int)
        &&& cp < src.spec_lines().len()
        &&& self.multiline_id + self.labels@.len() <= usize::MAX
        &&& (self.active_labels@.len() > 0 ==> self.current_line as int == cp)
    }

    /// Creates a new `DescriptorBuilder` over a source and its labels,
    /// sorted into the sweep's work stack.
    pub fn new(source: &'a Source, labels: Vec<Label>) -> (r: Self)
        requires
            source.wf(),
            forall|i: int|
                0 <= i < labels@.len() ==> crate::diagnostic::body::label_renderable(
                    *source,
                    #[trigger] labels@[i],
                ),
        ensures
            r.inv(),
            r.spec_stack() == sort_desc(labels@),
            r.spec_active().len() == 0,
            r.spec_nid() == 0,
            r.spec_result().len() == 0,
            r.spec_trim() == usize::MAX,
            r.spec_source() == *source,
    {
        let ghost input = labels@;
        let mut labels = labels;
        let n_labels = labels.len();
        sort_labels(&mut labels);
        proof {
            lemma_sort_desc_props(input);
            assert forall|i: int|
                0 <= i < labels@.len() implies crate::diagnostic::body::label_renderable(
                *source,
                #[trigger] labels@[i],
            ) by {
                assert(labels@.contains(labels@[i]));
                assert(input.contains(labels@[i]));
                let k = choose|k: int| 0 <= k < input.len() && input[k] == labels@[i];
                assert(crate::diagnostic::body::label_renderable(*source, input[k]));
            }
            assert forall|i: int|
                0 <= i < labels@.len() implies src_line_of_start(*source, labels@[i]) > -1 by {
                let l = labels@[i];
                assert(crate::diagnostic::body::label_renderable(*source, l));
                crate::source::lemma_line_at_exists(*source, l.span.spec_start() as int);
            }
            reveal(crate::diagnostic::body::chunks_wf);
        }
        DescriptorBuilder {
            source,
            labels,
            active_labels: Vec::new(),
            multiline_id: 0,
            current_line: 0,
            indent_trim: usize::MAX,
            result: Vec::new(),
        }
    }
}

/// The line a label's span starts on.
pub open spec fn src_line_of_start(src: Source, l: Label) -> int {
    src.spec_line_of(l.span.spec_start() as int)
}

/// Appending a chunk keeps the chunk table well formed when the chunk's
/// line follows all emitted ones and its events respect the identifier
/// bookkeeping.
proof fn lemma_chunks_wf_push(src: Source, result: Seq<BodyChunk>, chunk: BodyChunk, cur: int)
    requires
        crate::diagnostic::body::chunks_wf(src, result),
        cur_prev_of(result) < cur < src.spec_lines().len(),
        chunk.line == src.spec_lines()[cur],
        chunk.line.spec_index() == cur,
        forall|i: int|
            0 <= i < chunk.singleline_labels@.len() ==> singleline_label_on_chunk(
                src,
                #[trigger] chunk.singleline_labels@[i],
                chunk,
            ),
        forall|i: int|
            0 <= i < chunk.finishing_multiline_labels@.len() ==> (
            #[trigger] chunk.finishing_multiline_labels@[i] as int)
                < crate::diagnostic::body::starts_count(result, result.len() as int)
                + chunk.starting_multiline_labels@.len(),
        forall|i: int, j: int|
            0 <= i < j < chunk.finishing_multiline_labels@.len()
                ==> (#[trigger] chunk.finishing_multiline_labels@[i]) != (
            #[trigger] chunk.finishing_multiline_labels@[j]),
        forall|i: int|
            0 <= i < chunk.finishing_multiline_labels@.len()
                ==> !crate::diagnostic::body::finished_in(
                result,
                result.len() as int,
                #[trigger] chunk.finishing_multiline_labels@[i],
            ),
        chunk.finishing_multiline_labels@.len() + crate::diagnostic::body::finishes_count(
            result,
            result.len() as int,
        ) <= crate::diagnostic::body::starts_count(result, result.len() as int)
            + chunk.starting_multiline_labels@.len(),
    ensures
        crate::diagnostic::body::chunks_wf(src, result.push(chunk)),
{
    reveal(crate::diagnostic::body::chunks_wf);
    let new = result.push(chunk);
    let n = result.len() as int;
    assert(forall|t: int| 0 <= t < n ==> #[trigger] new[t] == result[t]);
    assert(new[n] == chunk);
    assert forall|t: int| 0 <= t <= new.len() implies #[trigger] crate::diagnostic::body::finishes_count(
        new,
        t,
    ) <= crate::diagnostic::body::starts_count(new, t) by {
        crate::diagnostic::body::lemma_folds_push(result, chunk, if t <= n {
            t
        } else {
            n
        });
        if t == n + 1 {
            crate::diagnostic::body::lemma_folds_push(result, chunk, n);
        }
    }
    assert forall|t: int, i: int|
        #![trigger new[t].finishing_multiline_labels@[i]]
        0 <= t < new.len() && 0 <= i < new[t].finishing_multiline_labels@.len() implies (
    new[t].finishing_multiline_labels@[i] as int) < crate::diagnostic::body::starts_count(
        new,
        t + 1,
    ) by {
        crate::diagnostic::body::lemma_folds_push(result, chunk, if t + 1 <= n {
            t + 1
        } else {
            n
        });
    }
    assert forall|t1: int, i1: int, t2: int, i2: int|
        #![trigger new[t1].finishing_multiline_labels@[i1], new[t2].finishing_multiline_labels@[i2]]
        0 <= t1 < new.len() && 0 <= i1 < new[t1].finishing_multiline_labels@.len() && 0 <= t2
            < new.len() && 0 <= i2 < new[t2].finishing_multiline_labels@.len() && (t1 != t2 || i1
            != i2) implies new[t1].finishing_multiline_labels@[i1]
        != new[t2].finishing_multiline_labels@[i2] by {
        if t1 < n && t2 == n {
            if new[t1].finishing_multiline_labels@[i1] == new[t2].finishing_multiline_labels@[i2] {
                assert(result[t1].finishing_multiline_labels@.contains(
                    chunk.finishing_multiline_labels@[i2],
                ));
                assert(crate::diagnostic::body::finished_in(
                    result,
                    n,
                    chunk.finishing_multiline_labels@[i2],
                ));
            }
        }
        if t2 < n && t1 == n {
            if new[t1].finishing_multiline_labels@[i1] == new[t2].finishing_multiline_labels@[i2] {
                assert(result[t2].finishing_multiline_labels@.contains(
                    chunk.finishing_multiline_labels@[i1],
                ));
                assert(crate::diagnostic::body::finished_in(
                    result,
                    n,
                    chunk.finishing_multiline_labels@[i1],
                ));
            }
        }
    }
}

/// `singleline_label_on` phrased against a chunk.
pub open spec fn singleline_label_on_chunk(src: Source, label: Label, chunk: BodyChunk) -> bool {
    singleline_label_on(src, label, chunk.line)
}

impl<'a> DescriptorBuilder<'a> {
    /// Returns the singleline labels of the current line and the multiline
    /// labels starting in the current line, respectively; the multiline ones
    /// are opened under fresh sequential identifiers.
    fn emit_labels_in_current(&mut self) -> (r: (Vec<Label>, Vec<Label>))
        requires
            old(self).source.wf(),
            sorted_desc_by_start(old(self).labels@),
            forall|i: int|
                0 <= i < old(self).labels@.len()
                    ==> crate::diagnostic::body::label_renderable(
                    *old(self).source,
                    #[trigger] old(self).labels@[i],
                ),
            forall|i: int|
                0 <= i < old(self).labels@.len() ==> (*old(self).source).spec_line_of(
                    (#[trigger] old(self).labels@[i]).span.spec_start() as int,
                ) >= old(self).current_line,
            old(self).multiline_id + old(self).labels@.len() <= usize::MAX,
        ensures
            ({
                let src = *old(self).source;
                let cur = old(self).current_line as int;
                let p = pops(src, old(self).labels@, cur);
                let consumed = popped(old(self).labels@, p);
                &&& final(self).labels@ == old(self).labels@.take(old(self).labels@.len() - p)
                &&& r.0@ == singles_of(src, consumed)
                &&& r.1@ == multis_of(src, consumed)
                &&& final(self).active_labels@ == old(self).active_labels@ + with_ids(
                    r.1@,
                    old(self).multiline_id as int,
                )
                &&& final(self).multiline_id == old(self).multiline_id + r.1@.len()
                &&& r.0@.len() + r.1@.len() == p
                &&& forall|i: int|
                    0 <= i < r.0@.len() ==> singleline_label_on(
                        src,
                        #[trigger] r.0@[i],
                        src.spec_lines()[cur],
                    )
                &&& forall|i: int|
                    0 <= i < r.1@.len() ==> {
                        let l = #[trigger] r.1@[i];
                        &&& l.span.wf()
                        &&& src.spec_lines().len() > 0
                        &&& Source::spec_effective_end(l.span) <= src.bytes().len()
                        &&& src.spec_line_of(Source::spec_effective_end(l.span)) > cur
                    }
                &&& forall|i: int|
                    0 <= i < final(self).labels@.len() ==> src.spec_line_of(
                        (#[trigger] final(self).labels@[i]).span.spec_start() as int,
                    ) > cur
                &&& final(self).source == old(self).source
                &&& final(self).current_line == old(self).current_line
                &&& final(self).indent_trim == old(self).indent_trim
                &&& final(self).result == old(self).result
            }),
    {
        let ghost src = *self.source;
        let ghost stack0 = self.labels@;
        let ghost active0 = self.active_labels@;
        let ghost nid0 = self.multiline_id;
        let cur = self.current_line;
        let mut singles: Vec<Label> = Vec::new();
        let mut multis: Vec<Label> = Vec::new();
        let mut count: usize = 0;
        let mut stopped = false;
        while !stopped && self.labels.len() > 0
            invariant
                src.wf(),
                src == *self.source,
                sorted_desc_by_start(stack0),
                forall|i: int|
                    0 <= i < stack0.len() ==> crate::diagnostic::body::label_renderable(
                        src,
                        #[trigger] stack0[i],
                    ),
                forall|i: int|
                    0 <= i < stack0.len() ==> src.spec_line_of(
                        (#[trigger] stack0[i]).span.spec_start() as int,
                    ) >= cur,
                nid0 + stack0.len() <= usize::MAX,
                0 <= count <= stack0.len(),
                self.labels@ == stack0.take(stack0.len() - count),
                singles@ == singles_of(src, popped(stack0, count as int)),
                multis@ == multis_of(src, popped(stack0, count as int)),
                singles@.len() + multis@.len() == count,
                self.active_labels@ == active0 + with_ids(multis@, nid0 as int),
                self.multiline_id == nid0 + multis@.len(),
                forall|k: int|
                    stack0.len() - count <= k < stack0.len() ==> src.spec_line_of(
                        (#[trigger] stack0[k]).span.spec_start() as int,
                    ) == cur,
                stopped ==> self.labels@.len() > 0 && src.spec_line_of(
                    self.labels@.last().span.spec_start() as int,
                ) != cur,
                forall|i: int|
                    0 <= i < singles@.len() ==> singleline_label_on(
                        src,
                        #[trigger] singles@[i],
                        src.spec_lines()[cur as int],
                    ),
                forall|i: int|
                    0 <= i < multis@.len() ==> {
                        let l = #[trigger] multis@[i];
                        &&& l.span.wf()
                        &&& src.spec_lines().len() > 0
                        &&& Source::spec_effective_end(l.span) <= src.bytes().len()
                        &&& src.spec_line_of(Source::spec_effective_end(l.span)) > cur
                    },
                self.source == old(self).source,
                self.current_line == old(self).current_line,
                self.indent_trim == old(self).indent_trim,
                self.result == old(self).result,
                cur == old(self).current_line,
                stack0 == old(self).labels@,
                active0 == old(self).active_labels@,
                nid0 == old(self).multiline_id,
            decreases self.labels.len(), if stopped {
                0int
            } else {
                1int
            },
        {
            let ghost consumed = popped(stack0, count as int);
            let top_i = self.labels.len() - 1;
            let top_start = self.labels[top_i].span.start();
            proof {
                assert(self.labels@[top_i as int] == stack0[top_i as int]);
                assert(crate::diagnostic::body::label_renderable(src, stack0[top_i as int]));
            }
            let k = match self.source.line_index_at(top_start as usize) {
                Some(k) => k,
                None => unreached(),
            };
            proof {
                crate::source::lemma_spec_line_of(src, k as int, top_start as int);
            }
            if k != cur {
                stopped = true;
            } else {
                let x = match self.labels.pop() {
                    Some(x) => x,
                    None => unreached(),
                };
                proof {
                    assert(x == stack0[stack0.len() - 1 - count]);
                    lemma_popped_succ(stack0, count as int);
                    assert(popped(stack0, count as int + 1) == consumed.push(x));
                    assert(popped(stack0, count as int + 1).drop_last() =~= consumed);
                    assert(self.labels@ =~= stack0.take(stack0.len() - count - 1));
                }
                let single = x.is_singleline(&self.source);
                proof {
                    if single {
                        crate::source::lemma_line_at_exists(
                            src,
                            Source::spec_effective_end(x.span),
                        );
                        crate::source::lemma_lines_index(src, cur as int);
                    } else {
                        crate::source::lemma_line_of_mono(
                            src,
                            x.span.spec_start() as int,
                            Source::spec_effective_end(x.span),
                        );
                    }
                }
                if single {
                    singles.push(x);
                } else {
                    let id = self.multiline_id;
                    self.active_labels.push((id, x.span));
                    multis.push(x);
                    self.multiline_id = id + 1;
                    proof {
                        assert(self.active_labels@ =~= active0 + with_ids(
                            multis@,
                            nid0 as int,
                        ));
                    }
                }
                count += 1;
            }
        }
        proof {
            if count < stack0.len() {
                assert(self.labels@.len() == stack0.len() - count);
                assert(self.labels@.last() == stack0[stack0.len() - 1 - count]);
            }
            lemma_pops_value(src, stack0, cur as int, count as int);
            assert forall|i: int| 0 <= i < self.labels@.len() implies src.spec_line_of(
                (#[trigger] self.labels@[i]).span.spec_start() as int,
            ) > cur by {
                let t = self.labels@.len() - 1;
                assert(self.labels@[i] == stack0[i]);
                assert(self.labels@[t] == stack0[t]);
                assert(src.spec_line_of(stack0[t].span.spec_start() as int) != cur);
                assert(src.spec_line_of(stack0[t].span.spec_start() as int) >= cur);
                if i < t {
                    assert(crate::diagnostic::body::label_renderable(src, stack0[i]));
                    assert(stack0[i].span.spec_start() >= stack0[t].span.spec_start());
                    crate::source::lemma_line_of_mono(
                        src,
                        stack0[t].span.spec_start() as int,
                        stack0[i].span.spec_start() as int,
                    );
                }
            }
        }
        (singles, multis)
    }

    /// Returns the identifiers of multiline labels finishing in the current
    /// line, removing them from the active set.
    fn finish_labels_in_current(&mut self) -> (r: Vec<usize>)
        requires
            old(self).source.wf(),
            forall|i: int|
                0 <= i < old(self).active_labels@.len() ==> {
                    let e = #[trigger] old(self).active_labels@[i];
                    &&& e.1.wf()
                    &&& (*old(self).source).spec_lines().len() > 0
                    &&& Source::spec_effective_end(e.1) <= (*old(self).source).bytes().len()
                },
        ensures
            ({
                let src = *old(self).source;
                let cur = old(self).current_line as int;
                &&& r@ == fins_of(src, old(self).active_labels@, cur)
                &&& final(self).active_labels@ == still_of(src, old(self).active_labels@, cur)
                &&& final(self).source == old(self).source
                &&& final(self).labels == old(self).labels
                &&& final(self).multiline_id == old(self).multiline_id
                &&& final(self).current_line == old(self).current_line
                &&& final(self).indent_trim == old(self).indent_trim
                &&& final(self).result == old(self).result
            }),
    {
        let ghost src = *self.source;
        let ghost active0 = self.active_labels@;
        proof {
            assert forall|j: int| 0 <= j < active0.len() implies {
                let e = #[trigger] active0[j];
                &&& e.1.wf()
                &&& src.spec_lines().len() > 0
                &&& Source::spec_effective_end(e.1) <= src.bytes().len()
            } by {
                assert(old(self).active_labels@[j] == active0[j]);
            }
        }
        let cur = self.current_line;
        let mut fins: Vec<usize> = Vec::new();
        let mut remaining: Vec<(usize, SourceSpan)> = Vec::new();
        let n = self.active_labels.len();
        let mut i: usize = 0;
        while i < n
            invariant
                src.wf(),
                src == *self.source,
                n == active0.len(),
                self.active_labels@ == active0,
                0 <= i <= n,
                forall|j: int|
                    0 <= j < active0.len() ==> {
                        let e = #[trigger] active0[j];
                        &&& e.1.wf()
                        &&& src.spec_lines().len() > 0
                        &&& Source::spec_effective_end(e.1) <= src.bytes().len()
                    },
                fins@ == fins_of(src, active0.take(i as int), cur as int),
                remaining@ == still_of(src, active0.take(i as int), cur as int),
                cur == self.current_line,
            decreases n - i,
        {
            let e = self.active_labels[i];
            let span = e.1;
            let eff = if span.end() > span.start() {
                span.end() - 1
            } else {
                span.start()
            };
            let k = match self.source.line_index_at(eff as usize) {
                Some(k) => k,
                None => unreached(),
            };
            proof {
                crate::source::lemma_spec_line_of(src, k as int, eff as int);
                assert(active0.take(i as int + 1).drop_last() =~= active0.take(i as int));
                assert(active0.take(i as int + 1).last() == active0[i as int]);
            }
            if k == cur {
                fins.push(e.0);
            } else {
                remaining.push(e);
            }
            i += 1;
        }
        proof {
            assert(active0.take(n as int) =~= active0);
        }
        self.active_labels = remaining;
        fins
    }
}

/// With distinct identifiers, the finishing and remaining parts of an
/// active set carry distinct identifiers and share none.
proof fn lemma_active_partition(src: Source, active: Seq<(usize, SourceSpan)>, cur: int)
    requires
        forall|i: int, j: int|
            0 <= i < j < active.len() ==> (#[trigger] active[i]).0 != (#[trigger] active[j]).0,
    ensures
        forall|i: int, j: int|
            0 <= i < j < fins_of(src, active, cur).len() ==> (#[trigger] fins_of(
                src,
                active,
                cur,
            )[i]) != (#[trigger] fins_of(src, active, cur)[j]),
        forall|i: int, j: int|
            0 <= i < j < still_of(src, active, cur).len() ==> (#[trigger] still_of(
                src,
                active,
                cur,
            )[i]).0 != (#[trigger] still_of(src, active, cur)[j]).0,
        forall|i: int, j: int|
            0 <= i < fins_of(src, active, cur).len() && 0 <= j < still_of(
                src,
                active,
                cur,
            ).len() ==> (#[trigger] fins_of(src, active, cur)[i]) != (#[trigger] still_of(
                src,
                active,
                cur,
            )[j]).0,
    decreases active.len(),
{
    if active.len() > 0 {
        let prev = active.drop_last();
        assert(forall|j: int| 0 <= j < prev.len() ==> #[trigger] prev[j] == active[j]);
        lemma_active_partition(src, prev, cur);
        lemma_active_split(src, prev, cur);
        let last = active.last();
        let f = fins_of(src, active, cur);
        let s = still_of(src, active, cur);
        let fp = fins_of(src, prev, cur);
        let sp = still_of(src, prev, cur);
        assert(active[active.len() - 1] == last);
        assert forall|i: int| 0 <= i < fp.len() implies #[trigger] fp[i] != last.0 by {
            assert(active_has_end(src, prev, cur, fp[i]));
            let j = choose|j: int|
                0 <= j < prev.len() && (#[trigger] prev[j]).0 == fp[i] && ends_on(
                    src,
                    prev[j],
                    cur,
                );
            assert(active[j].0 != active[active.len() - 1].0);
        }
        assert forall|i: int| 0 <= i < sp.len() implies (#[trigger] sp[i]).0 != last.0 by {
            assert(active_has_entry(prev, sp[i]));
            let j = choose|j: int| 0 <= j < prev.len() && #[trigger] prev[j] == sp[i];
            assert(active[j].0 != active[active.len() - 1].0);
        }
    }
}

impl<'a> DescriptorBuilder<'a> {
    /// Walks the source lines, consuming the label stack and closing active
    /// multi-line regions: lines outside any open region are skipped, lines
    /// inside one are visited one by one, and one chunk is emitted per
    /// visited line. The chunks emitted are exactly the sweep's.
    #[verifier::rlimit(100)]
    fn emit_events(&mut self)
        requires
            old(self).inv(),
        ensures
            final(self).inv(),
            final(self).labels@.len() == 0,
            final(self).active_labels@.len() == 0,
            final(self).source == old(self).source,
            crate::diagnostic::body::models(final(self).result@)
                == crate::diagnostic::body::models(old(self).result@) + sweep(
                *old(self).source,
                old(self).labels@,
                old(self).active_labels@,
                old(self).multiline_id as int,
                cur_prev_of(old(self).result@),
            ),
    {
        let ghost src = *self.source;
        let ghost stack00 = self.labels@;
        let ghost active00 = self.active_labels@;
        let ghost nid00 = self.multiline_id as int;
        let ghost cp00 = cur_prev_of(self.result@);
        let ghost result00 = self.result@;
        while self.labels.len() > 0 || self.active_labels.len() > 0
            invariant
                self.inv(),
                self.source == old(self).source,
                src == *self.source,
                stack00 == old(self).labels@,
                active00 == old(self).active_labels@,
                nid00 == old(self).multiline_id as int,
                cp00 == cur_prev_of(old(self).result@),
                result00 == old(self).result@,
                crate::diagnostic::body::models(result00) + sweep(
                    src,
                    stack00,
                    active00,
                    nid00,
                    cp00,
                ) == crate::diagnostic::body::models(self.result@) + sweep(
                    src,
                    self.labels@,
                    self.active_labels@,
                    self.multiline_id as int,
                    cur_prev_of(self.result@),
                ),
            decreases self.labels.len(), clamp0(
                src.spec_lines().len() - cur_prev_of(self.result@),
            ),
        {
            let ghost stack_b = self.labels@;
            let ghost active_b = self.active_labels@;
            let ghost nid_b = self.multiline_id as int;
            let ghost result_b = self.result@;
            let ghost cp_b = cur_prev_of(result_b);
            if self.active_labels.len() == 0 {
                let ti = self.labels.len() - 1;
                let top_start = self.labels[ti].span.start();
                proof {
                    assert(crate::diagnostic::body::label_renderable(src, stack_b[ti as int]));
                }
                let k = match self.source.line_index_at(top_start as usize) {
                    Some(k) => k,
                    None => unreached(),
                };
                proof {
                    crate::source::lemma_spec_line_of(src, k as int, top_start as int);
                }
                self.current_line = k;
            } else {
                let nl = self.source.lines().len();
                proof {
                    let e = self.active_labels@[0];
                    crate::source::lemma_line_at_exists(
                        src,
                        Source::spec_effective_end(e.1),
                    );
                    assert(src.line_at(
                        src.spec_line_of(Source::spec_effective_end(e.1)),
                        Source::spec_effective_end(e.1),
                    ));
                    assert((self.current_line as int) + 1 < nl as int);
                }
                self.current_line = self.current_line + 1;
            }
            let ghost cur = self.current_line as int;
            proof {
                assert(cp_b < cur < src.spec_lines().len());
            }
            let line = self.source.line(self.current_line).duplicate();
            proof {
                crate::source::lemma_lines_index(src, cur);
            }
            if !line.text().is_empty() {
                let ind = line.indent_size();
                if ind < self.indent_trim {
                    self.indent_trim = ind;
                }
            }
            proof {
                assert forall|i: int|
                    0 <= i < self.labels@.len() implies src.spec_line_of(
                    (#[trigger] self.labels@[i]).span.spec_start() as int,
                ) >= cur by {
                    if self.active_labels@.len() == 0 {
                        if i < self.labels@.len() - 1 {
                            let t = self.labels@.len() - 1;
                            assert(crate::diagnostic::body::label_renderable(
                                src,
                                self.labels@[i],
                            ));
                            assert(self.labels@[i].span.spec_start()
                                >= self.labels@[t].span.spec_start());
                            crate::source::lemma_line_of_mono(
                                src,
                                self.labels@[t].span.spec_start() as int,
                                self.labels@[i].span.spec_start() as int,
                            );
                        }
                    }
                }
            }
            let r = self.emit_labels_in_current();
            let singles = r.0;
            let multis = r.1;
            let ghost p = pops(src, stack_b, cur);
            let ghost consumed = popped(stack_b, p);
            let ghost active1 = self.active_labels@;
            proof {
                assert forall|j: int| 0 <= j < self.active_labels@.len() implies {
                    let e = #[trigger] self.active_labels@[j];
                    &&& e.1.wf()
                    &&& src.spec_lines().len() > 0
                    &&& Source::spec_effective_end(e.1) <= src.bytes().len()
                } by {
                    if j < active_b.len() {
                        assert(self.active_labels@[j] == active_b[j]);
                    } else {
                        assert(self.active_labels@[j] == with_ids(
                            multis_of(src, consumed),
                            nid_b,
                        )[j - active_b.len()]);
                        assert(multis@[j - active_b.len()].span == self.active_labels@[j].1);
                    }
                }
            }
            let fins = self.finish_labels_in_current();
            proof {
                assert forall|i: int, j: int|
                    0 <= i < j < active1.len() implies (#[trigger] active1[i]).0 != (
                #[trigger] active1[j]).0 by {
                    if j < active_b.len() {
                    } else if i < active_b.len() {
                        assert((active1[i].0 as int) < nid_b);
                        assert(active1[j].0 as int == nid_b + (j - active_b.len()));
                    } else {
                        assert(active1[i].0 as int == nid_b + (i - active_b.len()));
                        assert(active1[j].0 as int == nid_b + (j - active_b.len()));
                    }
                }
                lemma_active_split(src, active1, cur);
                lemma_active_partition(src, active1, cur);
            }
            let chunk = BodyChunk {
                line,
                singleline_labels: singles,
                starting_multiline_labels: multis,
                finishing_multiline_labels: fins,
            };
            self.result.push(chunk);
            proof {
                let fseq = fins_of(src, active1, cur);
                let msq = multis_of(src, consumed);
                let n_b = result_b.len() as int;
                let sc_b = crate::diagnostic::body::starts_count(result_b, n_b);
                let fc_b = crate::diagnostic::body::finishes_count(result_b, n_b);
                assert(sc_b == nid_b);
                // every identifier of the merged active set is below the new
                // next-free identifier, and the old ones are not yet finished
                assert forall|i: int| 0 <= i < fseq.len() implies (#[trigger] fseq[i] as int)
                    < nid_b + msq.len() by {
                    assert(active_has_end(src, active1, cur, fseq[i]));
                    let j = choose|j: int|
                        0 <= j < active1.len() && (#[trigger] active1[j]).0 == fseq[i]
                            && ends_on(src, active1[j], cur);
                    if j < active_b.len() {
                        assert((active_b[j].0 as int) < nid_b);
                    } else {
                        assert(active1[j].0 as int == nid_b + (j - active_b.len()));
                    }
                }
                assert forall|i: int| 0 <= i < fseq.len()
                    implies !crate::diagnostic::body::finished_in(
                    result_b,
                    n_b,
                    #[trigger] fseq[i],
                ) by {
                    assert(active_has_end(src, active1, cur, fseq[i]));
                    let j = choose|j: int|
                        0 <= j < active1.len() && (#[trigger] active1[j]).0 == fseq[i]
                            && ends_on(src, active1[j], cur);
                    if j < active_b.len() {
                        assert(!crate::diagnostic::body::finished_in(
                            result_b,
                            n_b,
                            active_b[j].0,
                        ));
                    } else {
                        assert(active1[j].0 as int == nid_b + (j - active_b.len()));
                        if crate::diagnostic::body::finished_in(result_b, n_b, fseq[i]) {
                            reveal(crate::diagnostic::body::chunks_wf);
                            let u = choose|u: int|
                                0 <= u < n_b
                                    && result_b[u].finishing_multiline_labels@.contains(
                                    fseq[i],
                                );
                            let i1 = choose|i1: int|
                                0 <= i1 < result_b[u].finishing_multiline_labels@.len()
                                    && result_b[u].finishing_multiline_labels@[i1] == fseq[i];
                            assert((result_b[u].finishing_multiline_labels@[i1] as int)
                                < crate::diagnostic::body::starts_count(result_b, u + 1));
                            crate::diagnostic::body::lemma_starts_count_mono(
                                result_b,
                                u + 1,
                                n_b,
                            );
                        }
                    }
                }
                assert(fseq.len() + still_of(src, active1, cur).len() == active1.len());
                lemma_chunks_wf_push(src, result_b, chunk, cur);
                // the cached numbers keep their fold characterization
                crate::diagnostic::body::lemma_folds_push(result_b, chunk, n_b);
                assert(crate::diagnostic::body::starts_count(self.result@, n_b + 1) == nid_b
                    + msq.len());
                assert(crate::diagnostic::body::min_indent(self.result@, n_b + 1)
                    == self.indent_trim);
                // active entries of the next state are still open and unfinished
                assert forall|i: int| 0 <= i < self.active_labels@.len() implies {
                    let e = #[trigger] self.active_labels@[i];
                    &&& (e.0 as int) < nid_b + msq.len()
                    &&& e.1.wf()
                    &&& src.spec_lines().len() > 0
                    &&& Source::spec_effective_end(e.1) <= src.bytes().len()
                    &&& src.spec_line_of(Source::spec_effective_end(e.1)) > cur
                    &&& !crate::diagnostic::body::finished_in(self.result@, n_b + 1, e.0)
                } by {
                    assert(active_has_entry(active1, self.active_labels@[i]) && !ends_on(
                        src,
                        self.active_labels@[i],
                        cur,
                    ));
                    let j = choose|j: int|
                        0 <= j < active1.len() && #[trigger] active1[j]
                            == self.active_labels@[i];
                    if j < active_b.len() {
                        assert(active1[j] == active_b[j]);
                        assert(src.spec_line_of(Source::spec_effective_end(active_b[j].1))
                            > cp_b);
                        assert(!crate::diagnostic::body::finished_in(
                            result_b,
                            n_b,
                            active_b[j].0,
                        ));
                    } else {
                        assert(active1[j] == with_ids(msq, nid_b)[j - active_b.len()]);
                        assert(active1[j].1 == msq[j - active_b.len()].span);
                        assert(active1[j].0 as int == nid_b + (j - active_b.len()));
                        if crate::diagnostic::body::finished_in(result_b, n_b, active1[j].0) {
                            reveal(crate::diagnostic::body::chunks_wf);
                            let u = choose|u: int|
                                0 <= u < n_b
                                    && result_b[u].finishing_multiline_labels@.contains(
                                    active1[j].0,
                                );
                            let i1 = choose|i1: int|
                                0 <= i1 < result_b[u].finishing_multiline_labels@.len()
                                    && result_b[u].finishing_multiline_labels@[i1] == active1[
                                j].0;
                            assert((result_b[u].finishing_multiline_labels@[i1] as int)
                                < crate::diagnostic::body::starts_count(result_b, u + 1));
                            crate::diagnostic::body::lemma_starts_count_mono(
                                result_b,
                                u + 1,
                                n_b,
                            );
                        }
                    }
                    // not finished in the new chunk either
                    if crate::diagnostic::body::finished_in(self.result@, n_b + 1, self.active_labels@[i].0) {
                        let u = choose|u: int|
                            0 <= u < n_b + 1
                                && self.result@[u].finishing_multiline_labels@.contains(
                                self.active_labels@[i].0,
                            );
                        if u < n_b {
                            assert(self.result@[u] == result_b[u]);
                            assert(crate::diagnostic::body::finished_in(
                                result_b,
                                n_b,
                                self.active_labels@[i].0,
                            ));
                        } else {
                            assert(self.result@[u] == chunk);
                            let i1 = choose|i1: int|
                                0 <= i1 < fseq.len() && fseq[i1] == self.active_labels@[i].0;
                            assert(fseq[i1] != still_of(src, active1, cur)[i].0);
                        }
                    }
                }
                // the sweep takes exactly this step
                assert(sweep(src, stack_b, active_b, nid_b, cp_b) == seq![
                    crate::diagnostic::body::model_of(chunk),
                ] + sweep(
                    src,
                    self.labels@,
                    self.active_labels@,
                    self.multiline_id as int,
                    cur,
                )) by {
                    assert(stack_b.len() > 0 || active_b.len() > 0);
                    assert(crate::diagnostic::body::model_of(chunk).line
                        == src.spec_lines()[cur]);
                    assert(self.labels@ == stack_b.take(stack_b.len() - p));
                }
                assert(crate::diagnostic::body::models(self.result@)
                    =~= crate::diagnostic::body::models(result_b).push(
                    crate::diagnostic::body::model_of(chunk),
                ));
                assert(crate::diagnostic::body::models(result_b) + (seq![
                    crate::diagnostic::body::model_of(chunk),
                ] + sweep(
                    src,
                    self.labels@,
                    self.active_labels@,
                    self.multiline_id as int,
                    cur,
                )) =~= crate::diagnostic::body::models(self.result@) + sweep(
                    src,
                    self.labels@,
                    self.active_labels@,
                    self.multiline_id as int,
                    cur,
                ));
                assert(cur_prev_of(self.result@) == cur);
                // each piece of the loop invariant, re-established
                lemma_pops_bounds(src, stack_b, cur);
                if active_b.len() == 0 {
                    lemma_pops_bounds(src, stack_b.drop_last(), cur);
                    assert(p >= 1);
                }
                assert(stack_ok(src, self.labels@, cur)) by {
                    assert forall|i: int, j: int|
                        0 <= i < j < self.labels@.len() implies (
                    #[trigger] self.labels@[i]).span.spec_start() >= (
                    #[trigger] self.labels@[j]).span.spec_start() by {
                        assert(self.labels@[i] == stack_b[i] && self.labels@[j] == stack_b[j]);
                    }
                    assert(forall|i: int|
                        0 <= i < self.labels@.len() ==> #[trigger] self.labels@[i] == stack_b[
                        i]);
                }
                assert(active_ok(src, self.active_labels@, nid_b + msq.len(), cur));
                assert(crate::diagnostic::body::chunks_wf(src, self.result@));
                assert(self.multiline_id as int == crate::diagnostic::body::starts_count(
                    self.result@,
                    self.result@.len() as int,
                ));
                assert(self.active_labels@.len() == crate::diagnostic::body::starts_count(
                    self.result@,
                    self.result@.len() as int,
                ) - crate::diagnostic::body::finishes_count(
                    self.result@,
                    self.result@.len() as int,
                ));
                assert(self.indent_trim == crate::diagnostic::body::min_indent(
                    self.result@,
                    self.result@.len() as int,
                ));
                assert(self.multiline_id + self.labels@.len() <= usize::MAX);
                assert(self.inv());
            }
        }
        proof {
            assert(sweep(
                src,
                self.labels@,
                self.active_labels@,
                self.multiline_id as int,
                cur_prev_of(self.result@),
            ) =~= Seq::<crate::diagnostic::body::ChunkModel>::empty());
        }
    }
}

impl<'a> DescriptorBuilder<'a> {
    /// Calculates the width of the line number section in the body.
    fn calculate_line_number_width(&self) -> (r: usize)
        requires
            self.source.wf(),
            crate::diagnostic::body::chunks_wf(*self.source, self.result@),
        ensures
            r == if self.result@.len() == 0 {
                0int
            } else {
                crate::diagnostic::fmt::dec_digits(
                    self.result@[self.result@.len() - 1].line.spec_index() + 1,
                ).len() as int
            },
    {
        let n = self.result.len();
        if n == 0 {
            return 0;
        }
        let nl = self.source.lines().len();
        proof {
            reveal(crate::diagnostic::body::chunks_wf);
            assert(self.result@[n - 1].line.spec_index() < nl);
        }
        crate::diagnostic::fmt::dec_width(self.result[n - 1].line.index() + 1)
    }

    /// Calculates the maximum number of parallel multiline labels that
    /// happens in this descriptor: labels that finish on a line are still
    /// shown on it, so they are subtracted only after the maximum is taken.
    fn calculate_maximum_parallel_labels(&self) -> (r: usize)
        requires
            crate::diagnostic::body::chunks_wf(*self.source, self.result@),
            self.multiline_id == crate::diagnostic::body::starts_count(
                self.result@,
                self.result@.len() as int,
            ),
        ensures
            r == crate::diagnostic::body::high_water(self.result@, self.result@.len() as int),
    {
        let ghost cs = self.result@;
        let n = self.result.len();
        let mut count: usize = 0;
        let mut maxv: usize = 0;
        let mut t: usize = 0;
        while t < n
            invariant
                n == cs.len(),
                cs == self.result@,
                crate::diagnostic::body::chunks_wf(*self.source, cs),
                self.multiline_id == crate::diagnostic::body::starts_count(cs, cs.len() as int),
                0 <= t <= n,
                count == crate::diagnostic::body::starts_count(cs, t as int)
                    - crate::diagnostic::body::finishes_count(cs, t as int),
                maxv == crate::diagnostic::body::high_water(cs, t as int),
            decreases n - t,
        {
            proof {
                crate::diagnostic::body::lemma_starts_count_mono(cs, t as int + 1, cs.len() as int);
                crate::diagnostic::body::lemma_starts_count_mono(cs, 0, t as int);
                crate::diagnostic::body::lemma_starts_count_mono(cs, t as int, t as int + 1);
                crate::diagnostic::body::lemma_wf_counts(*self.source, cs, t as int);
                crate::diagnostic::body::lemma_wf_counts(*self.source, cs, t as int + 1);
            }
            let c = &self.result[t];
            count = count + c.starting_multiline_labels.len();
            if count > maxv {
                maxv = count;
            }
            count = count - c.finishing_multiline_labels.len();
            t += 1;
        }
        maxv
    }

    /// Builds the `BodyDescriptor`: the sweep's chunks together with the
    /// indent trim, the line number width and the parallel-label capacity
    /// they determine.
    pub fn build(self) -> (d: BodyDescriptor)
        requires
            self.inv(),
        ensures
            crate::diagnostic::body::descriptor_wf(self.spec_source(), d),
            crate::diagnostic::body::models(d.chunks@) == crate::diagnostic::body::models(
                self.spec_result(),
            ) + sweep(
                self.spec_source(),
                self.spec_stack(),
                self.spec_active(),
                self.spec_nid() as int,
                cur_prev_of(self.spec_result()),
            ),
    {
        let mut this = self;
        this.emit_events();
        let line_number_width = this.calculate_line_number_width();
        let maximum_parallel_labels = this.calculate_maximum_parallel_labels();
        let d = BodyDescriptor {
            chunks: this.result,
            indent_trim: this.indent_trim,
            line_number_width,
            maximum_parallel_labels,
        };
        proof {
            reveal(crate::diagnostic::body::descriptor_wf);
        }
        d
    }
}

} // verus!
