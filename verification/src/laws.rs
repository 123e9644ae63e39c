//! The library's stated laws: closure consistency, span correctness,
//! attachment exclusivity, the partition property of finalized passes, order
//! preservation of the schedule, and determinism of re-derivation.

use vstd::prelude::*;

use crate::identify::{
    emit_at, emit_indices_upto, final_sets, lemma_emit_indices_props, pass_data_matches,
    passes_match, preimage, run_spans, set_att, set_conflict, set_plain, span_closure, span_step,
    spec_identify, PassSchedule, RenderPassData,
};
use crate::interface::{
    lemma_reaches_bounds, EntityKind, ScheduleEntry, SchedulerError, SchedulerInput,
};
use crate::resource_schedule::ResourceSchedule;
use crate::scheduler::order_matches;

verus! {

/// Closure consistency: every entity lies in its own forward-cumulative and
/// reverse-cumulative dependency set.
pub proof fn lemma_closure_consistency(inp: SchedulerInput, rs: ResourceSchedule, e: int)
    requires
        rs.wf(inp),
        0 <= e < inp.n(),
    ensures
        rs.for_cum@[e].spec_contains(e),
        rs.rev_cum@[e].spec_contains(e),
{
    assert(inp.reaches(e, e));
}

/// Span correctness, for a span that absorbs no previously identified pass:
/// the span set is the closure intersection of its endpoints, the endpoints
/// are the set's topological extremes, and so the set equals the closure
/// intersection of its own first and last member. (A span that absorbs an
/// earlier pass can cover a set that is not closure-convex; the law is
/// stated of the un-absorbed span set.)
pub proof fn lemma_span_set_extremes(inp: SchedulerInput, from: int, to: int)
    requires
        inp.reaches(from, to),
    ensures
        span_closure(inp, from, to).contains(from),
        span_closure(inp, from, to).contains(to),
        forall|x: int| #[trigger] span_closure(inp, from, to).contains(x) ==> from <= x <= to,
        forall|x: int|
            #[trigger] span_closure(inp, from, to).contains(x) == (inp.reaches(from, x)
                && inp.reaches(x, to)),
{
    lemma_reaches_bounds(inp, from, to);
    assert(inp.reaches(from, from));
    assert(inp.reaches(to, to));
    assert forall|x: int| #[trigger]
        span_closure(inp, from, to).contains(x) implies from <= x <= to by {
        lemma_reaches_bounds(inp, from, x);
        lemma_reaches_bounds(inp, x, to);
    }
}

/// A span none of whose closure entities belongs to an earlier tentative
/// pass merges exactly its closure: absorption adds nothing.
pub proof fn lemma_unabsorbed_span_merges_closure(
    inp: SchedulerInput,
    back: Seq<Option<usize>>,
    from: int,
    to: int,
)
    requires
        forall|e: int|
            #[trigger] span_closure(inp, from, to).contains(e) && 0 <= e < back.len()
                ==> back[e] is None,
    ensures
        crate::identify::span_full(inp, back, from, to) == span_closure(inp, from, to),
{
    assert forall|x: int|
        crate::identify::span_full(inp, back, from, to).contains(x) == span_closure(
            inp,
            from,
            to,
        ).contains(x) by {
        if crate::identify::span_full(inp, back, from, to).contains(x) && !span_closure(
            inp,
            from,
            to,
        ).contains(x) {
            let e = choose|e: int|
                0 <= e < back.len() && span_closure(inp, from, to).contains(e) && back[e]
                    == back[x];
            assert(back[e] is None);
            assert(false);
        }
    }
    assert(crate::identify::span_full(inp, back, from, to) =~= span_closure(inp, from, to));
}

/// Attachment exclusivity: in every finalized pass of a successful
/// derivation, the attachment set and the plain-use set are disjoint.
pub proof fn lemma_attachment_exclusivity(
    inp: SchedulerInput,
    fs: Seq<Set<int>>,
    ps: PassSchedule,
    q: int,
)
    requires
        spec_identify(inp) == Ok::<Seq<Set<int>>, SchedulerError>(fs),
        passes_match(inp, fs, ps),
        0 <= q < fs.len(),
    ensures
        forall|r: int|
            !(ps.passes@[q].attachments.spec_contains(r) && ps.passes@[q].uses.spec_contains(r)),
{
    assert(!set_conflict(inp, fs[q]));
    assert forall|r: int|
        !(ps.passes@[q].attachments.spec_contains(r)
            && ps.passes@[q].uses.spec_contains(r)) by {
        if ps.passes@[q].attachments.spec_contains(r) && ps.passes@[q].uses.spec_contains(r) {
            assert(set_att(inp, fs[q], r) && set_plain(inp, fs[q], r));
            assert(set_conflict(inp, fs[q]));
        }
    }
}

/// In a successful span fold, every claimed entity is of `Pass` kind.
proof fn lemma_run_ok_kinds(inp: SchedulerInput, i: int, back: Seq<Option<usize>>)
    requires
        0 <= i,
        run_spans(inp, i) == Ok::<Seq<Option<usize>>, SchedulerError>(back),
    ensures
        back.len() == inp.n(),
        forall|x: int|
            0 <= x < back.len() ==> (#[trigger] back[x] is Some ==> inp.kind_of(x)
                == EntityKind::Pass),
    decreases i,
{
    if i <= 0 {
    } else {
        match run_spans(inp, i - 1) {
            Ok(prev) => {
                lemma_run_ok_kinds(inp, i - 1, prev);
                assert(span_step(inp, prev, i - 1) == Ok::<Seq<Option<usize>>, SchedulerError>(
                    back,
                ));
            },
            Err(_) => {
                assert(false);
            },
        }
    }
}

/// A first occurrence exists below any occurrence.
proof fn lemma_least_witness(back: Seq<Option<usize>>, j0: int, p: usize)
    requires
        0 <= j0 < back.len(),
        back[j0] == Some(p),
    ensures
        exists|j: int|
            0 <= j <= j0 && #[trigger] back[j] == Some(p) && forall|j2: int|
                0 <= j2 < j ==> back[j2] != Some(p),
    decreases j0,
{
    if exists|j2: int| 0 <= j2 < j0 && #[trigger] back[j2] == Some(p) {
        let j2 = choose|j2: int| 0 <= j2 < j0 && #[trigger] back[j2] == Some(p);
        lemma_least_witness(back, j2, p);
    } else {
        assert(0 <= j0 <= j0 && back[j0] == Some(p) && forall|j2: int|
            0 <= j2 < j0 ==> back[j2] != Some(p));
    }
}

/// Partition property of the finalized member sets: pairwise disjoint, every
/// `Pass`-kind entity covered, no other entity covered.
pub proof fn lemma_final_sets_partition(inp: SchedulerInput, back: Seq<Option<usize>>)
    requires
        back.len() == inp.n(),
        forall|x: int|
            0 <= x < back.len() ==> (#[trigger] back[x] is Some ==> inp.kind_of(x)
                == EntityKind::Pass),
    ensures
        forall|x: int|
            0 <= x < inp.n() && inp.kind_of(x) == EntityKind::Pass ==> exists|q: int|
                0 <= q < final_sets(inp, back).len() && #[trigger] final_sets(
                    inp,
                    back,
                )[q].contains(x),
        forall|q: int, x: int|
            0 <= q < final_sets(inp, back).len() && #[trigger] final_sets(inp, back)[q].contains(x)
                ==> 0 <= x < inp.n() && inp.kind_of(x) == EntityKind::Pass,
        forall|q1: int, q2: int, x: int|
            0 <= q1 < final_sets(inp, back).len() && 0 <= q2 < final_sets(inp, back).len()
                && #[trigger] final_sets(inp, back)[q1].contains(x) && #[trigger] final_sets(
                inp,
                back,
            )[q2].contains(x) ==> q1 == q2,
{
    let n = inp.n();
    let fs = final_sets(inp, back);
    let upto = emit_indices_upto(inp, back, n);
    lemma_emit_indices_props(inp, back, n);
    assert(fs.len() == upto.len());
    assert forall|q: int| 0 <= q < fs.len() implies #[trigger] fs[q]
        == crate::identify::emitted_set(inp, back, upto[q]) by {}

    // Every Pass-kind entity is covered.
    assert forall|x: int|
        0 <= x < n && inp.kind_of(x) == EntityKind::Pass implies exists|q: int|
        0 <= q < fs.len() && #[trigger] fs[q].contains(x) by {
        match back[x] {
            Some(p) => {
                lemma_least_witness(back, x, p);
                let j = choose|j: int|
                    0 <= j <= x && #[trigger] back[j] == Some(p) && forall|j2: int|
                        0 <= j2 < j ==> back[j2] != Some(p);
                assert(emit_at(inp, back, j));
                let q = choose|q: int| 0 <= q < upto.len() && #[trigger] upto[q] == j;
                assert(fs[q] == preimage(back, p));
                assert(fs[q].contains(x));
            },
            None => {
                assert(emit_at(inp, back, x));
                let q = choose|q: int| 0 <= q < upto.len() && #[trigger] upto[q] == x;
                assert(fs[q].contains(x));
            },
        }
    }

    // Only valid Pass-kind entities are covered.
    assert forall|q: int, x: int|
        0 <= q < fs.len() && #[trigger] fs[q].contains(x) implies 0 <= x < n && inp.kind_of(x)
        == EntityKind::Pass by {
        let j = upto[q];
        assert(emit_at(inp, back, j));
        match back[j] {
            Some(p) => {
                assert(back[x] == Some(p));
            },
            None => {
                assert(x == j);
            },
        }
    }

    // Pairwise disjoint.
    assert forall|q1: int, q2: int, x: int|
        0 <= q1 < fs.len() && 0 <= q2 < fs.len() && #[trigger] fs[q1].contains(x)
            && #[trigger] fs[q2].contains(x) implies q1 == q2 by {
        if q1 != q2 {
            let ja = if q1 < q2 { upto[q1] } else { upto[q2] };
            let jb = if q1 < q2 { upto[q2] } else { upto[q1] };
            assert(ja < jb);
            assert(emit_at(inp, back, ja) && emit_at(inp, back, jb));
            match back[jb] {
                Some(pb) => {
                    assert(back[x] == Some(pb));
                    match back[ja] {
                        Some(pa) => {
                            assert(back[x] == Some(pa));
                            assert(pa == pb);
                            assert(back[ja] != back[jb]);
                            assert(false);
                        },
                        None => {
                            assert(x == ja);
                            assert(false);
                        },
                    }
                },
                None => {
                    assert(x == jb);
                    match back[ja] {
                        Some(pa) => {
                            assert(back[x] == Some(pa));
                            assert(false);
                        },
                        None => {
                            assert(x == ja);
                            assert(false);
                        },
                    }
                },
            }
        }
    }
}

/// Partition property at the scheduler's interface: after a successful
/// derivation, an entity has a finalized pass exactly when it is of `Pass`
/// kind, and the finalized member sets are pairwise disjoint, so each
/// `Pass`-kind entity belongs to exactly one finalized pass.
pub proof fn lemma_partition(inp: SchedulerInput, fs: Seq<Set<int>>, ps: PassSchedule)
    requires
        spec_identify(inp) == Ok::<Seq<Set<int>>, SchedulerError>(fs),
        passes_match(inp, fs, ps),
    ensures
        forall|x: int|
            0 <= x < inp.n() ==> ((inp.kind_of(x) == EntityKind::Pass) == (
            #[trigger] ps.passes_back@[x] is Some)),
        forall|q1: int, q2: int, x: int|
            0 <= q1 < fs.len() && 0 <= q2 < fs.len() && #[trigger] fs[q1].contains(x)
                && #[trigger] fs[q2].contains(x) ==> q1 == q2,
{
    match run_spans(inp, inp.spans@.len() as int) {
        Ok(back) => {
            lemma_run_ok_kinds(inp, inp.spans@.len() as int, back);
            assert(fs == final_sets(inp, back));
            lemma_final_sets_partition(inp, back);
            assert forall|x: int|
                0 <= x < inp.n() implies ((inp.kind_of(x) == EntityKind::Pass) == (
            #[trigger] ps.passes_back@[x] is Some)) by {
                match ps.passes_back@[x] {
                    Some(q) => {
                        assert(fs[q as int].contains(x));
                    },
                    None => {
                        if inp.kind_of(x) == EntityKind::Pass {
                            let q = choose|q: int|
                                0 <= q < fs.len() && #[trigger] fs[q].contains(x);
                            assert(false);
                        }
                    },
                }
            }
        },
        Err(_) => {
            assert(false);
        },
    }
}

/// The entity an entry schedules.
pub open spec fn entry_entity(se: ScheduleEntry) -> int {
    match se {
        ScheduleEntry::General(e) => e as int,
        ScheduleEntry::PassEntity(e, _) => e as int,
    }
}

/// Order preservation: the schedule is a linear extension of the dependency
/// DAG — position `i` holds entity `i`, so the source of every dependency
/// edge precedes its target.
pub proof fn lemma_order_preservation(
    inp: SchedulerInput,
    pb: Seq<Option<usize>>,
    order: Seq<ScheduleEntry>,
    a: int,
    b: int,
)
    requires
        order_matches(inp, pb, order),
        pb.len() == inp.n(),
        inp.n() <= usize::MAX,
        inp.dep_edge(a, b),
    ensures
        0 <= a < b < order.len(),
        entry_entity(order[a]) == a,
        entry_entity(order[b]) == b,
{
    assert(order[a] == (match pb[a] {
        Some(p) => ScheduleEntry::PassEntity(a as usize, p),
        None => ScheduleEntry::General(a as usize),
    }));
    assert(order[b] == (match pb[b] {
        Some(p) => ScheduleEntry::PassEntity(b as usize, p),
        None => ScheduleEntry::General(b as usize),
    }));
}

/// Content equality of two pass records, at the level of their views.
pub open spec fn pass_data_content_eq(d1: RenderPassData, d2: RenderPassData) -> bool {
    &&& d1.entities@ == d2.entities@
    &&& d1.members.bits@ == d2.members.bits@
    &&& d1.attachments.bits@ == d2.attachments.bits@
    &&& d1.uses.bits@ == d2.uses.bits@
    &&& d1.writes.bits@ == d2.writes.bits@
    &&& d1.for_cum.bits@ == d2.for_cum.bits@
    &&& d1.rev_cum.bits@ == d2.rev_cum.bits@
}

/// Two sets with pointwise equal membership have equal bit views.
proof fn lemma_set_views_eq(s1: crate::entity_set::EntitySet, s2: crate::entity_set::EntitySet)
    requires
        s1.universe() == s2.universe(),
        forall|i: int| s1.spec_contains(i) == s2.spec_contains(i),
    ensures
        s1.bits@ == s2.bits@,
{
    assert forall|i: int| 0 <= i < s1.bits@.len() implies s1.bits@[i] == s2.bits@[i] by {
        assert(s1.spec_contains(i) == s2.spec_contains(i));
    }
    assert(s1.bits@ =~= s2.bits@);
}

/// Idempotent re-derivation: two outputs of a successful derivation on the
/// same finalized input carry identical pass content and an identical
/// entity-to-pass mapping.
pub proof fn lemma_identify_deterministic(
    inp: SchedulerInput,
    fs: Seq<Set<int>>,
    ps1: PassSchedule,
    ps2: PassSchedule,
)
    requires
        spec_identify(inp) == Ok::<Seq<Set<int>>, SchedulerError>(fs),
        passes_match(inp, fs, ps1),
        passes_match(inp, fs, ps2),
    ensures
        ps1.passes@.len() == ps2.passes@.len(),
        forall|q: int|
            0 <= q < fs.len() ==> pass_data_content_eq(
                #[trigger] ps1.passes@[q],
                ps2.passes@[q],
            ),
        ps1.passes_back@ == ps2.passes_back@,
{
    lemma_partition(inp, fs, ps1);
    assert forall|q: int| 0 <= q < fs.len() implies pass_data_content_eq(
        #[trigger] ps1.passes@[q],
        ps2.passes@[q],
    ) by {
        let d1 = ps1.passes@[q];
        let d2 = ps2.passes@[q];
        assert(pass_data_matches(inp, fs[q], d1));
        assert(pass_data_matches(inp, fs[q], d2));
        lemma_set_views_eq(d1.members, d2.members);
        lemma_set_views_eq(d1.attachments, d2.attachments);
        lemma_set_views_eq(d1.uses, d2.uses);
        lemma_set_views_eq(d1.writes, d2.writes);
        lemma_set_views_eq(d1.for_cum, d2.for_cum);
        lemma_set_views_eq(d1.rev_cum, d2.rev_cum);
    }
    assert forall|x: int| 0 <= x < inp.n() implies ps1.passes_back@[x] == ps2.passes_back@[x] by {
        match ps1.passes_back@[x] {
            Some(q1) => {
                match ps2.passes_back@[x] {
                    Some(q2) => {
                        assert(fs[q1 as int].contains(x) && fs[q2 as int].contains(x));
                        assert(q1 as int == q2 as int);
                    },
                    None => {
                        assert(!fs[q1 as int].contains(x));
                        assert(false);
                    },
                }
            },
            None => {
                match ps2.passes_back@[x] {
                    Some(q2) => {
                        assert(!fs[q2 as int].contains(x));
                        assert(false);
                    },
                    None => {},
                }
            },
        }
    }
    assert(ps1.passes_back@ =~= ps2.passes_back@);
}

} // verus!
