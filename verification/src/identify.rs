//! Render-pass identification: merges span-requested entities into render
//! passes, validating usage-kind exclusivity, and finalizes the passes in the
//! global schedule order.
//!
//! The whole derivation is specified functionally: [`run_spans`] folds the
//! span requests over a tentative entity-to-pass map, and [`final_sets`]
//! lists the finalized member sets in emission order. The executable
//! [`identify_render_passes`] returns exactly that derivation, or exactly the
//! error the derivation runs into.

use vstd::prelude::*;

use crate::entity_set::{asc_members, lemma_asc_members_props, EntitySet};
use crate::interface::{
    Entity, EntityKind, PassId, SchedulerError, SchedulerInput, Usage,
};
use crate::resource_schedule::ResourceSchedule;

verus! {

/// Every entity on some dependency path from `from` to `to`, inclusive.
pub open spec fn span_closure(inp: SchedulerInput, from: int, to: int) -> Set<int> {
    Set::new(|x: int| inp.reaches(from, x) && inp.reaches(x, to))
}

/// The span's closure, widened by absorbing every tentative pass that owns
/// one of the closure's entities (`back` maps each entity to its tentative
/// pass, if any).
pub open spec fn span_full(
    inp: SchedulerInput,
    back: Seq<Option<usize>>,
    from: int,
    to: int,
) -> Set<int> {
    Set::new(
        |x: int|
            span_closure(inp, from, to).contains(x) || (0 <= x < back.len() && back[x] is Some
                && exists|e: int|
                0 <= e < back.len() && span_closure(inp, from, to).contains(e) && back[e] == back[x]),
    )
}

/// Every member of `s` is of `Pass` kind.
pub open spec fn all_pass_kind(inp: SchedulerInput, s: Set<int>) -> bool {
    forall|x: int| #[trigger] s.contains(x) ==> inp.kind_of(x) == EntityKind::Pass
}

/// Some member of `s` uses `r` as an attachment.
pub open spec fn set_att(inp: SchedulerInput, s: Set<int>, r: int) -> bool {
    exists|x: int| #[trigger] s.contains(x) && inp.att_use(x, r)
}

/// Some member of `s` uses `r` plainly.
pub open spec fn set_plain(inp: SchedulerInput, s: Set<int>, r: int) -> bool {
    exists|x: int| #[trigger] s.contains(x) && inp.plain_use(x, r)
}

/// Some member of `s` writes `r`.
pub open spec fn set_write(inp: SchedulerInput, s: Set<int>, r: int) -> bool {
    exists|x: int| #[trigger] s.contains(x) && inp.write_use(x, r)
}

/// Some resource is used both as an attachment and plainly within `s`.
pub open spec fn set_conflict(inp: SchedulerInput, s: Set<int>) -> bool {
    exists|r: int| set_att(inp, s, r) && set_plain(inp, s, r)
}

/// One span processed over the tentative map: reject a disconnected span, a
/// non-`Pass` member or an attachment/use conflict; otherwise claim the full
/// merged set for the fresh tentative pass id `i`.
pub open spec fn span_step(
    inp: SchedulerInput,
    back: Seq<Option<usize>>,
    i: int,
) -> Result<Seq<Option<usize>>, SchedulerError> {
    let from = inp.spans@[i].from as int;
    let to = inp.spans@[i].to as int;
    if !inp.reaches(from, to) {
        Err(SchedulerError::DisconnectedSpan)
    } else {
        let full = span_full(inp, back, from, to);
        if !all_pass_kind(inp, full) {
            Err(SchedulerError::NonPassEntityInSpan)
        } else if set_conflict(inp, full) {
            Err(SchedulerError::AttachmentUseConflict)
        } else {
            Ok(
                Seq::new(
                    back.len(),
                    |x: int|
                        if full.contains(x) {
                            Some(i as usize)
                        } else {
                            back[x]
                        },
                ),
            )
        }
    }
}

/// The tentative map after the first `i` spans, or the first error.
pub open spec fn run_spans(inp: SchedulerInput, i: int) -> Result<
    Seq<Option<usize>>,
    SchedulerError,
>
    decreases i,
{
    if i <= 0 {
        Ok(Seq::new(inp.n() as nat, |x: int| None))
    } else {
        match run_spans(inp, i - 1) {
            Ok(back) => span_step(inp, back, i - 1),
            Err(e) => Err(e),
        }
    }
}

/// The entities claimed by tentative pass `p`.
pub open spec fn preimage(back: Seq<Option<usize>>, p: usize) -> Set<int> {
    Set::new(|x: int| 0 <= x < back.len() && back[x] == Some(p))
}

/// A finalized pass is emitted at entity `j`: the first member of its
/// tentative pass, or an unclaimed `Pass`-kind entity that becomes a
/// single-entity pass.
pub open spec fn emit_at(inp: SchedulerInput, back: Seq<Option<usize>>, j: int) -> bool {
    match back[j] {
        Some(p) => forall|j2: int| 0 <= j2 < j ==> back[j2] != back[j],
        None => inp.kind_of(j) == EntityKind::Pass,
    }
}

/// The member set of the pass emitted at entity `j`.
pub open spec fn emitted_set(inp: SchedulerInput, back: Seq<Option<usize>>, j: int) -> Set<int> {
    match back[j] {
        Some(p) => preimage(back, p),
        None => Set::new(|x: int| x == j),
    }
}

/// The entities below `e` at which passes are emitted, in ascending order.
pub open spec fn emit_indices_upto(inp: SchedulerInput, back: Seq<Option<usize>>, e: int) -> Seq<
    int,
>
    decreases e,
{
    if e <= 0 {
        Seq::empty()
    } else if emit_at(inp, back, e - 1) {
        emit_indices_upto(inp, back, e - 1).push(e - 1)
    } else {
        emit_indices_upto(inp, back, e - 1)
    }
}

/// The finalized pass member sets, in the global schedule order.
pub open spec fn final_sets(inp: SchedulerInput, back: Seq<Option<usize>>) -> Seq<Set<int>> {
    emit_indices_upto(inp, back, back.len() as int).map_values(
        |j: int| emitted_set(inp, back, j),
    )
}

/// The whole derivation: fold the spans, then finalize, rejecting any
/// finalized pass whose own usages conflict.
pub open spec fn spec_identify(inp: SchedulerInput) -> Result<Seq<Set<int>>, SchedulerError> {
    match run_spans(inp, inp.spans@.len() as int) {
        Err(e) => Err(e),
        Ok(back) => {
            let fs = final_sets(inp, back);
            if exists|q: int| 0 <= q < fs.len() && set_conflict(inp, #[trigger] fs[q]) {
                Err(SchedulerError::AttachmentUseConflict)
            } else {
                Ok(fs)
            }
        },
    }
}

/// One finalized render pass: its entities in execution order, its member
/// set, its attachment, plain-use and write resource sets, and the merged
/// cumulative-dependency sets of its members.
pub struct RenderPassData {
    pub entities: Vec<Entity>,
    pub members: EntitySet,
    pub attachments: EntitySet,
    pub uses: EntitySet,
    pub writes: EntitySet,
    pub for_cum: EntitySet,
    pub rev_cum: EntitySet,
}

/// The pass data is exactly what the member set `m` induces on the input.
pub open spec fn pass_data_matches(inp: SchedulerInput, m: Set<int>, d: RenderPassData) -> bool {
    &&& d.entities@ == asc_members(m, inp.n())
    &&& d.members.universe() == inp.n()
    &&& forall|x: int|
        #![trigger d.members.spec_contains(x)]
        d.members.spec_contains(x) == m.contains(x)
    &&& d.attachments.universe() == inp.num_resources
    &&& forall|r: int|
        #![trigger d.attachments.spec_contains(r)]
        d.attachments.spec_contains(r) == set_att(inp, m, r)
    &&& d.uses.universe() == inp.num_resources
    &&& forall|r: int|
        #![trigger d.uses.spec_contains(r)]
        d.uses.spec_contains(r) == set_plain(inp, m, r)
    &&& d.writes.universe() == inp.num_resources
    &&& forall|r: int|
        #![trigger d.writes.spec_contains(r)]
        d.writes.spec_contains(r) == set_write(inp, m, r)
    &&& d.for_cum.universe() == inp.n()
    &&& forall|y: int|
        #![trigger d.for_cum.spec_contains(y)]
        d.for_cum.spec_contains(y) == exists|x: int| #[trigger] m.contains(x) && inp.reaches(x, y)
    &&& d.rev_cum.universe() == inp.n()
    &&& forall|y: int|
        #![trigger d.rev_cum.spec_contains(y)]
        d.rev_cum.spec_contains(y) == exists|x: int| #[trigger] m.contains(x) && inp.reaches(y, x)
}

/// The identifier's output: the finalized passes in execution order and the
/// entity-to-finalized-pass map.
pub struct PassSchedule {
    pub passes: Vec<RenderPassData>,
    pub passes_back: Vec<Option<PassId>>,
}

/// The output lists exactly the finalized member sets `fs`, each rendered as
/// its induced pass data, and maps each entity to a pass that holds it (and
/// to none when no pass holds it).
pub open spec fn passes_match(inp: SchedulerInput, fs: Seq<Set<int>>, ps: PassSchedule) -> bool {
    &&& ps.passes@.len() == fs.len()
    &&& forall|q: int|
        0 <= q < fs.len() ==> pass_data_matches(inp, fs[q], #[trigger] ps.passes@[q])
    &&& ps.passes_back@.len() == inp.n()
    &&& forall|x: int|
        #![trigger ps.passes_back@[x]]
        0 <= x < inp.n() ==> match ps.passes_back@[x] {
            Some(q) => q < fs.len() && fs[q as int].contains(x),
            None => forall|q: int|
                #![trigger fs[q].contains(x)]
                0 <= q < fs.len() ==> !fs[q].contains(x),
        }
}

/// The attachment, plain-use and write resource sets of one entity.
struct UsageSets {
    att: EntitySet,
    plain: EntitySet,
    writes: EntitySet,
}

/// The attachment, plain-use and write resource sets of one entity.
fn entity_usage_sets(inp: &SchedulerInput, e: Entity) -> (t: UsageSets)
    requires
        inp.wf(),
        e < inp.n(),
    ensures
        t.att.universe() == inp.num_resources,
        t.plain.universe() == inp.num_resources,
        t.writes.universe() == inp.num_resources,
        forall|r: int|
            #![trigger t.att.spec_contains(r)]
            t.att.spec_contains(r) == inp.att_use(e as int, r),
        forall|r: int|
            #![trigger t.plain.spec_contains(r)]
            t.plain.spec_contains(r) == inp.plain_use(e as int, r),
        forall|r: int|
            #![trigger t.writes.spec_contains(r)]
            t.writes.spec_contains(r) == inp.write_use(e as int, r),
{
    let mut att = EntitySet::new(inp.num_resources);
    let mut plain = EntitySet::new(inp.num_resources);
    let mut wr = EntitySet::new(inp.num_resources);
    let us: &Vec<Usage> = &inp.entities[e].usages;
    let mut k: usize = 0;
    while k < us.len()
        invariant
            inp.wf(),
            e < inp.n(),
            k <= us@.len(),
            us@ == inp.usage_seq(e as int),
            att.universe() == inp.num_resources,
            plain.universe() == inp.num_resources,
            wr.universe() == inp.num_resources,
            forall|r: int|
                #![trigger att.spec_contains(r)]
                att.spec_contains(r) == exists|kk: int|
                    0 <= kk < k && us@[kk].resource as int == r && us@[kk].kind.attachment,
            forall|r: int|
                #![trigger plain.spec_contains(r)]
                plain.spec_contains(r) == exists|kk: int|
                    0 <= kk < k && us@[kk].resource as int == r && !us@[kk].kind.attachment,
            forall|r: int|
                #![trigger wr.spec_contains(r)]
                wr.spec_contains(r) == exists|kk: int|
                    0 <= kk < k && us@[kk].resource as int == r && us@[kk].kind.write,
        decreases us@.len() - k,
    {
        let u = us[k];
        let ghost attp = att;
        let ghost plainp = plain;
        let ghost wrp = wr;
        assert(u.resource < inp.num_resources);
        if u.kind.attachment {
            att.insert(u.resource);
        } else {
            plain.insert(u.resource);
        }
        if u.kind.write {
            wr.insert(u.resource);
        }
        proof {
            assert forall|r: int|
                #![trigger att.spec_contains(r)]
                att.spec_contains(r) == exists|kk: int|
                    0 <= kk < k + 1 && us@[kk].resource as int == r
                        && us@[kk].kind.attachment by {
                if att.spec_contains(r) {
                    if attp.spec_contains(r) {
                        let kk = choose|kk: int|
                            0 <= kk < k && us@[kk].resource as int == r && us@[kk].kind.attachment;
                        assert(0 <= kk < k + 1 && us@[kk].resource as int == r
                            && us@[kk].kind.attachment);
                    } else {
                        assert(us@[k as int].resource as int == r && us@[k as int].kind.attachment);
                    }
                }
                if exists|kk: int|
                    0 <= kk < k + 1 && us@[kk].resource as int == r && us@[kk].kind.attachment {
                    let kk = choose|kk: int|
                        0 <= kk < k + 1 && us@[kk].resource as int == r && us@[kk].kind.attachment;
                    if kk < k {
                        assert(attp.spec_contains(r));
                    }
                    assert(att.spec_contains(r));
                }
            }
            assert forall|r: int|
                #![trigger plain.spec_contains(r)]
                plain.spec_contains(r) == exists|kk: int|
                    0 <= kk < k + 1 && us@[kk].resource as int == r
                        && !us@[kk].kind.attachment by {
                if plain.spec_contains(r) {
                    if plainp.spec_contains(r) {
                        let kk = choose|kk: int|
                            0 <= kk < k && us@[kk].resource as int == r && !us@[kk].kind.attachment;
                        assert(0 <= kk < k + 1 && us@[kk].resource as int == r
                            && !us@[kk].kind.attachment);
                    } else {
                        assert(us@[k as int].resource as int == r && !us@[k as int].kind.attachment);
                    }
                }
                if exists|kk: int|
                    0 <= kk < k + 1 && us@[kk].resource as int == r && !us@[kk].kind.attachment {
                    let kk = choose|kk: int|
                        0 <= kk < k + 1 && us@[kk].resource as int == r && !us@[kk].kind.attachment;
                    if kk < k {
                        assert(plainp.spec_contains(r));
                    }
                    assert(plain.spec_contains(r));
                }
            }
            assert forall|r: int|
                #![trigger wr.spec_contains(r)]
                wr.spec_contains(r) == exists|kk: int|
                    0 <= kk < k + 1 && us@[kk].resource as int == r && us@[kk].kind.write by {
                if wr.spec_contains(r) {
                    if wrp.spec_contains(r) {
                        let kk = choose|kk: int|
                            0 <= kk < k && us@[kk].resource as int == r && us@[kk].kind.write;
                        assert(0 <= kk < k + 1 && us@[kk].resource as int == r
                            && us@[kk].kind.write);
                    } else {
                        assert(us@[k as int].resource as int == r && us@[k as int].kind.write);
                    }
                }
                if exists|kk: int|
                    0 <= kk < k + 1 && us@[kk].resource as int == r && us@[kk].kind.write {
                    let kk = choose|kk: int|
                        0 <= kk < k + 1 && us@[kk].resource as int == r && us@[kk].kind.write;
                    if kk < k {
                        assert(wrp.spec_contains(r));
                    }
                    assert(wr.spec_contains(r));
                }
            }
        }
        k += 1;
    }
    UsageSets { att, plain, writes: wr }
}

/// Renders one member set as its pass data: ordered entity list, member set,
/// attachment/use/write sets and merged cumulative-dependency sets.
fn build_pass_data(inp: &SchedulerInput, rs: &ResourceSchedule, members: &EntitySet) -> (d:
    RenderPassData)
    requires
        inp.wf(),
        rs.wf(*inp),
        members.universe() == inp.n(),
    ensures
        pass_data_matches(*inp, members.to_set(), d),
{
    let n = inp.entities.len();
    let entities = members.members();
    let mut attachments = EntitySet::new(inp.num_resources);
    let mut uses = EntitySet::new(inp.num_resources);
    let mut writes = EntitySet::new(inp.num_resources);
    let mut for_cum = EntitySet::new(n);
    let mut rev_cum = EntitySet::new(n);
    let mut e: usize = 0;
    while e < n
        invariant
            inp.wf(),
            rs.wf(*inp),
            members.universe() == n,
            n == inp.n(),
            e <= n,
            attachments.universe() == inp.num_resources,
            uses.universe() == inp.num_resources,
            writes.universe() == inp.num_resources,
            for_cum.universe() == n,
            rev_cum.universe() == n,
            forall|r: int|
                #![trigger attachments.spec_contains(r)]
                attachments.spec_contains(r) == exists|x: int|
                    0 <= x < e && #[trigger] members.spec_contains(x) && inp.att_use(x, r),
            forall|r: int|
                #![trigger uses.spec_contains(r)]
                uses.spec_contains(r) == exists|x: int|
                    0 <= x < e && #[trigger] members.spec_contains(x) && inp.plain_use(x, r),
            forall|r: int|
                #![trigger writes.spec_contains(r)]
                writes.spec_contains(r) == exists|x: int|
                    0 <= x < e && #[trigger] members.spec_contains(x) && inp.write_use(x, r),
            forall|y: int|
                #![trigger for_cum.spec_contains(y)]
                for_cum.spec_contains(y) == exists|x: int|
                    0 <= x < e && #[trigger] members.spec_contains(x) && inp.reaches(x, y),
            forall|y: int|
                #![trigger rev_cum.spec_contains(y)]
                rev_cum.spec_contains(y) == exists|x: int|
                    0 <= x < e && #[trigger] members.spec_contains(x) && inp.reaches(y, x),
        decreases n - e,
    {
        let ghost attp = attachments;
        let ghost usesp = uses;
        let ghost writesp = writes;
        let ghost fcp = for_cum;
        let ghost rcp = rev_cum;
        let is_member = members.contains(e);
        if is_member {
            let usets = entity_usage_sets(inp, e);
            attachments.union_into(&usets.att);
            uses.union_into(&usets.plain);
            writes.union_into(&usets.writes);
            for_cum.union_into(&rs.for_cum[e]);
            rev_cum.union_into(&rs.rev_cum[e]);
        }
        proof {
            assert forall|r: int|
                #![trigger attachments.spec_contains(r)]
                attachments.spec_contains(r) == exists|x: int|
                    0 <= x < e + 1 && #[trigger] members.spec_contains(x) && inp.att_use(x, r) by {
                if attachments.spec_contains(r) {
                    if attp.spec_contains(r) {
                        let x = choose|x: int|
                            0 <= x < e && #[trigger] members.spec_contains(x) && inp.att_use(x, r);
                        assert(0 <= x < e + 1 && members.spec_contains(x) && inp.att_use(x, r));
                    } else {
                        assert(members.spec_contains(e as int) && inp.att_use(e as int, r));
                    }
                }
                if exists|x: int|
                    0 <= x < e + 1 && #[trigger] members.spec_contains(x) && inp.att_use(x, r) {
                    let x = choose|x: int|
                        0 <= x < e + 1 && #[trigger] members.spec_contains(x) && inp.att_use(x, r);
                    if x < e {
                        assert(attp.spec_contains(r));
                    } else {
                        assert(is_member);
                    }
                    assert(attachments.spec_contains(r));
                }
            }
            assert forall|r: int|
                #![trigger uses.spec_contains(r)]
                uses.spec_contains(r) == exists|x: int|
                    0 <= x < e + 1 && #[trigger] members.spec_contains(x) && inp.plain_use(
                    x,
                    r,
                ) by {
                if uses.spec_contains(r) {
                    if usesp.spec_contains(r) {
                        let x = choose|x: int|
                            0 <= x < e && #[trigger] members.spec_contains(x) && inp.plain_use(
                                x,
                                r,
                            );
                        assert(0 <= x < e + 1 && members.spec_contains(x) && inp.plain_use(x, r));
                    } else {
                        assert(members.spec_contains(e as int) && inp.plain_use(e as int, r));
                    }
                }
                if exists|x: int|
                    0 <= x < e + 1 && #[trigger] members.spec_contains(x) && inp.plain_use(x, r) {
                    let x = choose|x: int|
                        0 <= x < e + 1 && #[trigger] members.spec_contains(x) && inp.plain_use(
                            x,
                            r,
                        );
                    if x < e {
                        assert(usesp.spec_contains(r));
                    } else {
                        assert(is_member);
                    }
                    assert(uses.spec_contains(r));
                }
            }
            assert forall|r: int|
                #![trigger writes.spec_contains(r)]
                writes.spec_contains(r) == exists|x: int|
                    0 <= x < e + 1 && #[trigger] members.spec_contains(x) && inp.write_use(
                    x,
                    r,
                ) by {
                if writes.spec_contains(r) {
                    if writesp.spec_contains(r) {
                        let x = choose|x: int|
                            0 <= x < e && #[trigger] members.spec_contains(x) && inp.write_use(
                                x,
                                r,
                            );
                        assert(0 <= x < e + 1 && members.spec_contains(x) && inp.write_use(x, r));
                    } else {
                        assert(members.spec_contains(e as int) && inp.write_use(e as int, r));
                    }
                }
                if exists|x: int|
                    0 <= x < e + 1 && #[trigger] members.spec_contains(x) && inp.write_use(x, r) {
                    let x = choose|x: int|
                        0 <= x < e + 1 && #[trigger] members.spec_contains(x) && inp.write_use(
                            x,
                            r,
                        );
                    if x < e {
                        assert(writesp.spec_contains(r));
                    } else {
                        assert(is_member);
                    }
                    assert(writes.spec_contains(r));
                }
            }
            assert forall|y: int|
                #![trigger for_cum.spec_contains(y)]
                for_cum.spec_contains(y) == exists|x: int|
                    0 <= x < e + 1 && #[trigger] members.spec_contains(x) && inp.reaches(x, y) by {
                if for_cum.spec_contains(y) {
                    if fcp.spec_contains(y) {
                        let x = choose|x: int|
                            0 <= x < e && #[trigger] members.spec_contains(x) && inp.reaches(x, y);
                        assert(0 <= x < e + 1 && members.spec_contains(x) && inp.reaches(x, y));
                    } else {
                        assert(members.spec_contains(e as int) && inp.reaches(e as int, y));
                    }
                }
                if exists|x: int|
                    0 <= x < e + 1 && #[trigger] members.spec_contains(x) && inp.reaches(x, y) {
                    let x = choose|x: int|
                        0 <= x < e + 1 && #[trigger] members.spec_contains(x) && inp.reaches(x, y);
                    if x < e {
                        assert(fcp.spec_contains(y));
                    } else {
                        assert(is_member);
                        assert(rs.for_cum@[e as int].spec_contains(y));
                    }
                    assert(for_cum.spec_contains(y));
                }
            }
            assert forall|y: int|
                #![trigger rev_cum.spec_contains(y)]
                rev_cum.spec_contains(y) == exists|x: int|
                    0 <= x < e + 1 && #[trigger] members.spec_contains(x) && inp.reaches(y, x) by {
                if rev_cum.spec_contains(y) {
                    if rcp.spec_contains(y) {
                        let x = choose|x: int|
                            0 <= x < e && #[trigger] members.spec_contains(x) && inp.reaches(y, x);
                        assert(0 <= x < e + 1 && members.spec_contains(x) && inp.reaches(y, x));
                    } else {
                        assert(members.spec_contains(e as int) && inp.reaches(y, e as int));
                    }
                }
                if exists|x: int|
                    0 <= x < e + 1 && #[trigger] members.spec_contains(x) && inp.reaches(y, x) {
                    let x = choose|x: int|
                        0 <= x < e + 1 && #[trigger] members.spec_contains(x) && inp.reaches(y, x);
                    if x < e {
                        assert(rcp.spec_contains(y));
                    } else {
                        assert(is_member);
                        assert(rs.rev_cum@[e as int].spec_contains(y));
                    }
                    assert(rev_cum.spec_contains(y));
                }
            }
        }
        e += 1;
    }
    let members_copy = members.copy();
    proof {
        assert forall|x: int| #[trigger]
            members.to_set().contains(x) implies 0 <= x < n by {}
        assert forall|r: int|
            #![trigger attachments.spec_contains(r)]
            attachments.spec_contains(r) == set_att(*inp, members.to_set(), r) by {
            if attachments.spec_contains(r) {
                let x = choose|x: int|
                    0 <= x < n && #[trigger] members.spec_contains(x) && inp.att_use(x, r);
                assert(members.to_set().contains(x) && inp.att_use(x, r));
            }
            if set_att(*inp, members.to_set(), r) {
                let x = choose|x: int|
                    #[trigger] members.to_set().contains(x) && inp.att_use(x, r);
                assert(0 <= x < n && members.spec_contains(x) && inp.att_use(x, r));
            }
        }
        assert forall|r: int|
            #![trigger uses.spec_contains(r)]
            uses.spec_contains(r) == set_plain(*inp, members.to_set(), r) by {
            if uses.spec_contains(r) {
                let x = choose|x: int|
                    0 <= x < n && #[trigger] members.spec_contains(x) && inp.plain_use(x, r);
                assert(members.to_set().contains(x) && inp.plain_use(x, r));
            }
            if set_plain(*inp, members.to_set(), r) {
                let x = choose|x: int|
                    #[trigger] members.to_set().contains(x) && inp.plain_use(x, r);
                assert(0 <= x < n && members.spec_contains(x) && inp.plain_use(x, r));
            }
        }
        assert forall|r: int|
            #![trigger writes.spec_contains(r)]
            writes.spec_contains(r) == set_write(*inp, members.to_set(), r) by {
            if writes.spec_contains(r) {
                let x = choose|x: int|
                    0 <= x < n && #[trigger] members.spec_contains(x) && inp.write_use(x, r);
                assert(members.to_set().contains(x) && inp.write_use(x, r));
            }
            if set_write(*inp, members.to_set(), r) {
                let x = choose|x: int|
                    #[trigger] members.to_set().contains(x) && inp.write_use(x, r);
                assert(0 <= x < n && members.spec_contains(x) && inp.write_use(x, r));
            }
        }
        assert forall|y: int|
            #![trigger for_cum.spec_contains(y)]
            for_cum.spec_contains(y) == exists|x: int|
                #[trigger] members.to_set().contains(x) && inp.reaches(x, y) by {
            if for_cum.spec_contains(y) {
                let x = choose|x: int|
                    0 <= x < n && #[trigger] members.spec_contains(x) && inp.reaches(x, y);
                assert(members.to_set().contains(x) && inp.reaches(x, y));
            }
            if exists|x: int| #[trigger] members.to_set().contains(x) && inp.reaches(x, y) {
                let x = choose|x: int|
                    #[trigger] members.to_set().contains(x) && inp.reaches(x, y);
                assert(0 <= x < n && members.spec_contains(x) && inp.reaches(x, y));
            }
        }
        assert forall|y: int|
            #![trigger rev_cum.spec_contains(y)]
            rev_cum.spec_contains(y) == exists|x: int|
                #[trigger] members.to_set().contains(x) && inp.reaches(y, x) by {
            if rev_cum.spec_contains(y) {
                let x = choose|x: int|
                    0 <= x < n && #[trigger] members.spec_contains(x) && inp.reaches(y, x);
                assert(members.to_set().contains(x) && inp.reaches(y, x));
            }
            if exists|x: int| #[trigger] members.to_set().contains(x) && inp.reaches(y, x) {
                let x = choose|x: int|
                    #[trigger] members.to_set().contains(x) && inp.reaches(y, x);
                assert(0 <= x < n && members.spec_contains(x) && inp.reaches(y, x));
            }
        }
    }
    RenderPassData { entities, members: members_copy, attachments, uses, writes, for_cum, rev_cum }
}

/// An error of the span fold persists through the remaining spans.
proof fn lemma_run_err_persists(inp: SchedulerInput, i: int, j: int, e: SchedulerError)
    requires
        0 <= i <= j,
        run_spans(inp, i) == Err::<Seq<Option<usize>>, SchedulerError>(e),
    ensures
        run_spans(inp, j) == Err::<Seq<Option<usize>>, SchedulerError>(e),
    decreases j - i,
{
    if j > i {
        lemma_run_err_persists(inp, i, j - 1, e);
    }
}

/// Every listed emission index is a real emission point below the bound,
/// the indices ascend, and every emission point below the bound is listed.
pub proof fn lemma_emit_indices_props(inp: SchedulerInput, back: Seq<Option<usize>>, e: int)
    ensures
        forall|q: int|
            0 <= q < emit_indices_upto(inp, back, e).len() ==> 0 <= #[trigger] emit_indices_upto(
                inp,
                back,
                e,
            )[q] < e && emit_at(inp, back, emit_indices_upto(inp, back, e)[q]),
        forall|q1: int, q2: int|
            0 <= q1 < q2 < emit_indices_upto(inp, back, e).len() ==> emit_indices_upto(
                inp,
                back,
                e,
            )[q1] < emit_indices_upto(inp, back, e)[q2],
        forall|j: int|
            0 <= j < e && emit_at(inp, back, j) ==> exists|q: int|
                0 <= q < emit_indices_upto(inp, back, e).len() && #[trigger] emit_indices_upto(
                    inp,
                    back,
                    e,
                )[q] == j,
    decreases e,
{
    if e > 0 {
        lemma_emit_indices_props(inp, back, e - 1);
        let prev = emit_indices_upto(inp, back, e - 1);
        let s = emit_indices_upto(inp, back, e);
        if emit_at(inp, back, e - 1) {
            assert(s == prev.push(e - 1));
            assert(s[s.len() - 1] == e - 1);
            assert forall|j: int| 0 <= j < e && emit_at(inp, back, j) implies exists|q: int|
                0 <= q < s.len() && #[trigger] s[q] == j by {
                if j == e - 1 {
                    assert(s[s.len() - 1] == j);
                } else {
                    let q = choose|q: int| 0 <= q < prev.len() && #[trigger] prev[q] == j;
                    assert(s[q] == j);
                }
            }
        } else {
            assert(s == prev);
        }
    }
}

/// Identifies the render passes of a finalized input: folds the span
/// requests, then finalizes every tentative pass (and every unclaimed
/// `Pass`-kind entity as a single-entity pass) in the global schedule order.
/// Returns exactly the derivation [`spec_identify`] describes, or exactly
/// the error that derivation runs into.
pub fn identify_render_passes(inp: &SchedulerInput, rs: &ResourceSchedule) -> (r: Result<
    PassSchedule,
    SchedulerError,
>)
    requires
        inp.wf(),
        rs.wf(*inp),
    ensures
        match r {
            Ok(ps) => spec_identify(*inp) matches Ok(fs) && passes_match(*inp, fs, ps),
            Err(e) => spec_identify(*inp) == Err::<Seq<Set<int>>, SchedulerError>(e),
        },
{
    let n = inp.entities.len();
    let nspans = inp.spans.len();

    // The tentative entity-to-pass map, empty at the start.
    let mut back: Vec<Option<usize>> = Vec::new();
    let mut k: usize = 0;
    while k < n
        invariant
            k <= n,
            back@.len() == k,
            forall|x: int| 0 <= x < k ==> #[trigger] back@[x] is None,
        decreases n - k,
    {
        back.push(None);
        k += 1;
    }
    proof {
        assert(back@ =~= Seq::new(inp.n() as nat, |x: int| None::<usize>));
    }

    let mut i: usize = 0;
    while i < nspans
        invariant
            inp.wf(),
            rs.wf(*inp),
            n == inp.n(),
            nspans == inp.spans@.len(),
            i <= nspans,
            back@.len() == n,
            run_spans(*inp, i as int) == Ok::<Seq<Option<usize>>, SchedulerError>(back@),
            forall|x: int|
                0 <= x < n ==> (#[trigger] back@[x] matches Some(p) ==> p < i),
        decreases nspans - i,
    {
        let span = inp.spans[i];
        let from = span.from;
        let to = span.to;
        assert(from < n && to < n);
        let ghost from_i = from as int;
        let ghost to_i = to as int;
        let ghost back_old = back@;

        if !rs.for_cum[from].contains(to) {
            proof {
                assert(!inp.reaches(from_i, to_i));
                assert(run_spans(*inp, i as int + 1) == Err::<Seq<Option<usize>>, SchedulerError>(
                    SchedulerError::DisconnectedSpan,
                ));
                lemma_run_err_persists(
                    *inp,
                    i as int + 1,
                    nspans as int,
                    SchedulerError::DisconnectedSpan,
                );
            }
            return Err(SchedulerError::DisconnectedSpan);
        }
        assert(inp.reaches(from_i, to_i));

        // Entities that must sit between the endpoints.
        let base = rs.for_cum[from].intersection(&rs.rev_cum[to]);
        proof {
            assert forall|x: int|
                #![trigger base.spec_contains(x)]
                base.spec_contains(x) == span_closure(*inp, from_i, to_i).contains(x) by {}
        }

        // Tentative passes touched by the closure.
        let mut absorbed: Vec<bool> = Vec::new();
        let mut k2: usize = 0;
        while k2 < i
            invariant
                k2 <= i,
                absorbed@.len() == k2,
                forall|p: int| 0 <= p < k2 ==> !(#[trigger] absorbed@[p]),
            decreases i - k2,
        {
            absorbed.push(false);
            k2 += 1;
        }
        let mut e: usize = 0;
        while e < n
            invariant
                n == inp.n(),
                back@.len() == n,
                back@ == back_old,
                e <= n,
                absorbed@.len() == i,
                forall|x: int|
                    0 <= x < n ==> (#[trigger] back@[x] matches Some(p) ==> p < i),
                forall|p: int|
                    0 <= p < i ==> #[trigger] absorbed@[p] == exists|x0: int|
                        0 <= x0 < e && #[trigger] base.spec_contains(x0) && back@[x0] == Some(
                            p as usize,
                        ),
            decreases n - e,
        {
            let ghost absp = absorbed@;
            if base.contains(e) {
                match back[e] {
                    Some(p) => {
                        assert(p < i);
                        absorbed.set(p, true);
                    },
                    None => {},
                }
            }
            proof {
                assert forall|p: int| 0 <= p < i implies #[trigger] absorbed@[p] == exists|x0: int|
                    0 <= x0 < e + 1 && #[trigger] base.spec_contains(x0) && back@[x0] == Some(
                        p as usize,
                    ) by {
                    if absorbed@[p] {
                        if absp[p] {
                            let x0 = choose|x0: int|
                                0 <= x0 < e && #[trigger] base.spec_contains(x0) && back@[x0]
                                    == Some(p as usize);
                            assert(0 <= x0 < e + 1 && base.spec_contains(x0) && back@[x0] == Some(
                                p as usize,
                            ));
                        } else {
                            assert(base.spec_contains(e as int) && back@[e as int] == Some(
                                p as usize,
                            ));
                        }
                    }
                    if exists|x0: int|
                        0 <= x0 < e + 1 && #[trigger] base.spec_contains(x0) && back@[x0] == Some(
                            p as usize,
                        ) {
                        let x0 = choose|x0: int|
                            0 <= x0 < e + 1 && #[trigger] base.spec_contains(x0) && back@[x0]
                                == Some(p as usize);
                        if x0 < e {
                            assert(absp[p]);
                        }
                        assert(absorbed@[p]);
                    }
                }
            }
            e += 1;
        }

        // The closure, widened by the absorbed passes.
        let mut full = base.copy();
        let mut x: usize = 0;
        while x < n
            invariant
                n == inp.n(),
                back@.len() == n,
                back@ == back_old,
                x <= n,
                absorbed@.len() == i,
                full.universe() == base.universe(),
                base.universe() == n,
                forall|x2: int|
                    0 <= x2 < n ==> (#[trigger] back@[x2] matches Some(p) ==> p < i),
                forall|p: int|
                    0 <= p < i ==> #[trigger] absorbed@[p] == exists|x0: int|
                        0 <= x0 < n && #[trigger] base.spec_contains(x0) && back@[x0] == Some(
                            p as usize,
                        ),
                forall|y: int|
                    #![trigger full.spec_contains(y)]
                    full.spec_contains(y) == (base.spec_contains(y) || (0 <= y < x && (back@[y]
                        matches Some(p) && absorbed@[p as int]))),
            decreases n - x,
        {
            let ghost fullp = full;
            match back[x] {
                Some(p) => {
                    assert(p < i);
                    if absorbed[p] {
                        full.insert(x);
                    }
                },
                None => {},
            }
            proof {
                assert forall|y: int|
                    #![trigger full.spec_contains(y)]
                    full.spec_contains(y) == (base.spec_contains(y) || (0 <= y < x + 1 && (back@[y]
                        matches Some(p) && absorbed@[p as int]))) by {
                    assert(fullp.spec_contains(y) == (base.spec_contains(y) || (0 <= y < x && (
                    back@[y] matches Some(p) && absorbed@[p as int]))));
                }
            }
            x += 1;
        }
        let ghost spec_full = span_full(*inp, back@, from_i, to_i);
        proof {
            assert forall|y: int|
                #![trigger full.spec_contains(y)]
                full.spec_contains(y) == spec_full.contains(y) by {
                if full.spec_contains(y) {
                    if !base.spec_contains(y) {
                        let p = back@[y]->0;
                        assert(absorbed@[p as int]);
                        let x0 = choose|x0: int|
                            0 <= x0 < n && #[trigger] base.spec_contains(x0) && back@[x0] == Some(
                                p as usize,
                            );
                        assert(span_closure(*inp, from_i, to_i).contains(x0) && back@[x0] == back@[y]);
                        assert(spec_full.contains(y));
                    } else {
                        assert(spec_full.contains(y));
                    }
                }
                if spec_full.contains(y) {
                    if !base.spec_contains(y) {
                        let e0 = choose|e0: int|
                            0 <= e0 < back@.len() && span_closure(*inp, from_i, to_i).contains(e0)
                                && back@[e0] == back@[y];
                        let p = back@[y]->0;
                        assert(base.spec_contains(e0) && back@[e0] == Some(p));
                        assert(absorbed@[p as int]);
                        assert(full.spec_contains(y));
                    } else {
                        assert(full.spec_contains(y));
                    }
                }
            }
        }

        // Every merged entity must be mergeable into a render pass.
        let mut e2: usize = 0;
        while e2 < n
            invariant
                inp.wf(),
                rs.wf(*inp),
                n == inp.n(),
                nspans == inp.spans@.len(),
                i < nspans,
                e2 <= n,
                full.universe() == n,
                back@ == back_old,
                back@.len() == n,
                run_spans(*inp, i as int) == Ok::<Seq<Option<usize>>, SchedulerError>(back@),
                inp.reaches(from_i, to_i),
                from_i == inp.spans@[i as int].from as int,
                to_i == inp.spans@[i as int].to as int,
                spec_full == span_full(*inp, back@, from_i, to_i),
                forall|y: int|
                    #![trigger full.spec_contains(y)]
                    full.spec_contains(y) == spec_full.contains(y),
                forall|y: int|
                    0 <= y < e2 ==> (#[trigger] full.spec_contains(y) ==> inp.kind_of(y)
                        == EntityKind::Pass),
            decreases n - e2,
        {
            if full.contains(e2) {
                if !(inp.entities[e2].kind == EntityKind::Pass) {
                    proof {
                        assert(spec_full.contains(e2 as int));
                        assert(!all_pass_kind(*inp, spec_full));
                        assert(span_step(*inp, back@, i as int) == Err::<
                            Seq<Option<usize>>,
                            SchedulerError,
                        >(SchedulerError::NonPassEntityInSpan));
                        assert(run_spans(*inp, i as int + 1) == Err::<
                            Seq<Option<usize>>,
                            SchedulerError,
                        >(SchedulerError::NonPassEntityInSpan));
                        lemma_run_err_persists(
                            *inp,
                            i as int + 1,
                            nspans as int,
                            SchedulerError::NonPassEntityInSpan,
                        );
                    }
                    return Err(SchedulerError::NonPassEntityInSpan);
                }
            }
            e2 += 1;
        }
        proof {
            assert forall|y: int| #[trigger]
                spec_full.contains(y) implies inp.kind_of(y) == EntityKind::Pass by {
                assert(full.spec_contains(y));
                assert(0 <= y < n);
            }
            assert(all_pass_kind(*inp, spec_full));
        }

        // No resource may be both an attachment and a plain use in the span.
        let spanpass = build_pass_data(inp, rs, &full);
        proof {
            assert(full.to_set() =~= spec_full);
        }
        if !spanpass.attachments.is_disjoint(&spanpass.uses) {
            proof {
                let r0 = choose|r: int|
                    spanpass.attachments.spec_contains(r) && spanpass.uses.spec_contains(r);
                assert(set_att(*inp, spec_full, r0) && set_plain(*inp, spec_full, r0));
                assert(set_conflict(*inp, spec_full));
                assert(run_spans(*inp, i as int + 1) == Err::<Seq<Option<usize>>, SchedulerError>(
                    SchedulerError::AttachmentUseConflict,
                ));
                lemma_run_err_persists(
                    *inp,
                    i as int + 1,
                    nspans as int,
                    SchedulerError::AttachmentUseConflict,
                );
            }
            return Err(SchedulerError::AttachmentUseConflict);
        }
        proof {
            assert(!set_conflict(*inp, spec_full)) by {
                if set_conflict(*inp, spec_full) {
                    let r0 = choose|r: int|
                        set_att(*inp, spec_full, r) && set_plain(*inp, spec_full, r);
                    assert(spanpass.attachments.spec_contains(r0));
                    assert(spanpass.uses.spec_contains(r0));
                    assert(false);
                }
            }
        }

        // Claim the merged set for the fresh tentative pass.
        let mut x2: usize = 0;
        while x2 < n
            invariant
                n == inp.n(),
                back@.len() == n,
                x2 <= n,
                i < nspans,
                full.universe() == n,
                forall|y: int|
                    0 <= y < x2 ==> #[trigger] back@[y] == (if full.spec_contains(y) {
                        Some(i)
                    } else {
                        back_old[y]
                    }),
                forall|y: int| x2 <= y < n ==> #[trigger] back@[y] == back_old[y],
            decreases n - x2,
        {
            if full.contains(x2) {
                back.set(x2, Some(i));
            }
            x2 += 1;
        }
        proof {
            let stepped = Seq::new(
                back_old.len(),
                |x3: int|
                    if spec_full.contains(x3) {
                        Some((i as int) as usize)
                    } else {
                        back_old[x3]
                    },
            );
            assert forall|y: int| 0 <= y < n implies back@[y] == stepped[y] by {
                assert(full.spec_contains(y) == spec_full.contains(y));
            }
            assert(back@ =~= stepped);
            assert(span_step(*inp, back_old, i as int) == Ok::<Seq<Option<usize>>, SchedulerError>(
                back@,
            ));
            assert(run_spans(*inp, i as int + 1) == Ok::<Seq<Option<usize>>, SchedulerError>(
                back@,
            ));
            assert forall|x3: int|
                0 <= x3 < n implies (#[trigger] back@[x3] matches Some(p) ==> p < i + 1) by {
                if back_old[x3] is Some {
                    assert(back_old[x3] matches Some(p0) ==> p0 < i);
                }
            }
        }
        i += 1;
    }

    // Finalization: emit every tentative pass at its first member, and every
    // unclaimed Pass-kind entity as a single-entity pass, in global order.
    let mut emitted: Vec<bool> = Vec::new();
    let mut k3: usize = 0;
    while k3 < nspans
        invariant
            k3 <= nspans,
            emitted@.len() == k3,
            forall|p: int| 0 <= p < k3 ==> !(#[trigger] emitted@[p]),
        decreases nspans - k3,
    {
        emitted.push(false);
        k3 += 1;
    }
    let mut passes_back: Vec<Option<usize>> = Vec::new();
    let mut k4: usize = 0;
    while k4 < n
        invariant
            k4 <= n,
            passes_back@.len() == k4,
            forall|x: int| 0 <= x < k4 ==> #[trigger] passes_back@[x] is None,
        decreases n - k4,
    {
        passes_back.push(None);
        k4 += 1;
    }
    let mut passes: Vec<RenderPassData> = Vec::new();

    let mut e: usize = 0;
    while e < n
        invariant
            inp.wf(),
            rs.wf(*inp),
            n == inp.n(),
            nspans == inp.spans@.len(),
            e <= n,
            back@.len() == n,
            run_spans(*inp, nspans as int) == Ok::<Seq<Option<usize>>, SchedulerError>(back@),
            forall|x: int| 0 <= x < n ==> (#[trigger] back@[x] matches Some(p) ==> p < nspans),
            emitted@.len() == nspans,
            forall|p: int|
                0 <= p < nspans ==> #[trigger] emitted@[p] == exists|j: int|
                    0 <= j < e && back@[j] == Some(p as usize),
            passes@.len() == emit_indices_upto(*inp, back@, e as int).len(),
            forall|q: int|
                0 <= q < passes@.len() ==> pass_data_matches(
                    *inp,
                    emitted_set(*inp, back@, emit_indices_upto(*inp, back@, e as int)[q]),
                    #[trigger] passes@[q],
                ),
            forall|q: int|
                0 <= q < passes@.len() ==> !set_conflict(
                    *inp,
                    #[trigger] emitted_set(*inp, back@, emit_indices_upto(*inp, back@, e as int)[q]),
                ),
            passes_back@.len() == n,
            forall|x: int|
                #![trigger passes_back@[x]]
                0 <= x < n ==> match passes_back@[x] {
                    Some(q) => q < passes@.len() && emitted_set(
                        *inp,
                        back@,
                        emit_indices_upto(*inp, back@, e as int)[q as int],
                    ).contains(x),
                    None => forall|q: int|
                        #![trigger emit_indices_upto(*inp, back@, e as int)[q]]
                        0 <= q < passes@.len() ==> !emitted_set(
                            *inp,
                            back@,
                            emit_indices_upto(*inp, back@, e as int)[q],
                        ).contains(x),
                },
        decreases n - e,
    {
        let ghost upto_e = emit_indices_upto(*inp, back@, e as int);
        let ghost emittedp = emitted@;
        let mut do_emit = false;
        let mut mset = EntitySet::new(n);
        match back[e] {
            Some(p) => {
                assert(p < nspans);
                if !emitted[p] {
                    do_emit = true;
                    emitted.set(p, true);
                    let mut x3: usize = 0;
                    while x3 < n
                        invariant
                            n == back@.len(),
                            x3 <= n,
                            mset.universe() == n,
                            back@[e as int] == Some(p),
                            forall|y: int|
                                #![trigger mset.spec_contains(y)]
                                mset.spec_contains(y) == (0 <= y < x3 && back@[y] == Some(p)),
                        decreases n - x3,
                    {
                        let ghost msetp = mset;
                        match back[x3] {
                            Some(pp) => {
                                if pp == p {
                                    mset.insert(x3);
                                }
                            },
                            None => {},
                        }
                        proof {
                            assert forall|y: int|
                                #![trigger mset.spec_contains(y)]
                                mset.spec_contains(y) == (0 <= y < x3 + 1 && back@[y] == Some(
                                    p,
                                )) by {
                                assert(msetp.spec_contains(y) == (0 <= y < x3 && back@[y] == Some(
                                    p,
                                )));
                            }
                        }
                        x3 += 1;
                    }
                    proof {
                        assert(!emittedp[p as int]);
                        assert forall|j2: int| 0 <= j2 < e implies back@[j2] != back@[e as int] by {
                            if back@[j2] == Some(p) {
                                assert(emittedp[p as int]);
                            }
                        }
                        assert(emit_at(*inp, back@, e as int));
                        assert forall|y: int|
                            #![trigger mset.spec_contains(y)]
                            mset.spec_contains(y) == emitted_set(*inp, back@, e as int).contains(
                                y,
                            ) by {}
                    }
                } else {
                    proof {
                        let j0 = choose|j: int| 0 <= j < e && back@[j] == Some(p);
                        assert(back@[j0] == back@[e as int]);
                        assert(!emit_at(*inp, back@, e as int));
                    }
                }
            },
            None => {
                if inp.entities[e].kind == EntityKind::Pass {
                    do_emit = true;
                    mset.insert(e);
                    proof {
                        assert(emit_at(*inp, back@, e as int));
                        assert forall|y: int|
                            #![trigger mset.spec_contains(y)]
                            mset.spec_contains(y) == emitted_set(*inp, back@, e as int).contains(
                                y,
                            ) by {}
                    }
                } else {
                    proof {
                        assert(!emit_at(*inp, back@, e as int));
                    }
                }
            },
        }
        proof {
            assert forall|p: int|
                0 <= p < nspans implies #[trigger] emitted@[p] == exists|j: int|
                0 <= j < e + 1 && back@[j] == Some(p as usize) by {
                if emitted@[p] {
                    if emittedp[p] {
                        let j = choose|j: int| 0 <= j < e && back@[j] == Some(p as usize);
                        assert(0 <= j < e + 1 && back@[j] == Some(p as usize));
                    } else {
                        assert(back@[e as int] == Some(p as usize));
                    }
                }
                if exists|j: int| 0 <= j < e + 1 && back@[j] == Some(p as usize) {
                    let j = choose|j: int| 0 <= j < e + 1 && back@[j] == Some(p as usize);
                    if j < e {
                        assert(emittedp[p]);
                        assert(emitted@[p]);
                    } else {
                        assert(back@[e as int] == Some(p as usize));
                        assert(emitted@[p]);
                    }
                }
            }
        }
        if do_emit {
            let ghost eset = emitted_set(*inp, back@, e as int);
            let d = build_pass_data(inp, rs, &mset);
            proof {
                assert(mset.to_set() =~= eset);
            }
            if !d.attachments.is_disjoint(&d.uses) {
                proof {
                    let r0 = choose|r: int|
                        d.attachments.spec_contains(r) && d.uses.spec_contains(r);
                    assert(set_att(*inp, eset, r0) && set_plain(*inp, eset, r0));
                    assert(set_conflict(*inp, eset));
                    lemma_emit_indices_props(*inp, back@, n as int);
                    let fs = final_sets(*inp, back@);
                    let q0 = choose|q: int|
                        0 <= q < emit_indices_upto(*inp, back@, n as int).len()
                            && #[trigger] emit_indices_upto(*inp, back@, n as int)[q] == e as int;
                    assert(fs[q0] == eset);
                    assert(0 <= q0 < fs.len() && set_conflict(*inp, fs[q0]));
                    assert(spec_identify(*inp) == Err::<Seq<Set<int>>, SchedulerError>(
                        SchedulerError::AttachmentUseConflict,
                    ));
                }
                return Err(SchedulerError::AttachmentUseConflict);
            }
            let q = passes.len();
            passes.push(d);
            let ghost pbp = passes_back@;
            let mut x4: usize = 0;
            while x4 < n
                invariant
                    n == inp.n(),
                    x4 <= n,
                    mset.universe() == n,
                    passes_back@.len() == n,
                    pbp.len() == n,
                    forall|y: int|
                        0 <= y < x4 ==> #[trigger] passes_back@[y] == (if mset.spec_contains(y) {
                            Some(q)
                        } else {
                            pbp[y]
                        }),
                    forall|y: int| x4 <= y < n ==> #[trigger] passes_back@[y] == pbp[y],
                decreases n - x4,
            {
                if mset.contains(x4) {
                    passes_back.set(x4, Some(q));
                }
                x4 += 1;
            }
            proof {
                assert(!set_conflict(*inp, eset)) by {
                    if set_conflict(*inp, eset) {
                        let r0 = choose|r: int| set_att(*inp, eset, r) && set_plain(*inp, eset, r);
                        assert(d.attachments.spec_contains(r0));
                        assert(d.uses.spec_contains(r0));
                        assert(false);
                    }
                }
                let upto_e1 = emit_indices_upto(*inp, back@, e as int + 1);
                assert(upto_e1 == upto_e.push(e as int));
                assert(passes@.len() == upto_e1.len());
                assert forall|q2: int| 0 <= q2 < passes@.len() implies pass_data_matches(
                    *inp,
                    emitted_set(*inp, back@, upto_e1[q2]),
                    #[trigger] passes@[q2],
                ) && !set_conflict(*inp, emitted_set(*inp, back@, upto_e1[q2])) by {
                    if q2 < upto_e.len() {
                        assert(upto_e1[q2] == upto_e[q2]);
                        assert(passes@[q2] == passes@.subrange(0, passes@.len() - 1)[q2]);
                    } else {
                        assert(upto_e1[q2] == e as int);
                        assert(passes@[q2] == d);
                        assert(pass_data_matches(*inp, mset.to_set(), d));
                    }
                }
                assert forall|x5: int| #![trigger passes_back@[x5]] 0 <= x5 < n implies match
                    passes_back@[x5] {
                    Some(q2) => q2 < passes@.len() && emitted_set(
                        *inp,
                        back@,
                        upto_e1[q2 as int],
                    ).contains(x5),
                    None => forall|q2: int|
                        #![trigger upto_e1[q2]]
                        0 <= q2 < passes@.len() ==> !emitted_set(
                            *inp,
                            back@,
                            upto_e1[q2],
                        ).contains(x5),
                } by {
                    if mset.spec_contains(x5) {
                        assert(passes_back@[x5] == Some(q));
                        assert(emitted_set(*inp, back@, e as int).contains(x5));
                    } else {
                        assert(passes_back@[x5] == pbp[x5]);
                        match pbp[x5] {
                            Some(q2) => {
                                assert(upto_e1[q2 as int] == upto_e[q2 as int]);
                            },
                            None => {
                                assert forall|q2: int|
                                    #![trigger upto_e1[q2]]
                                    0 <= q2 < passes@.len() implies !emitted_set(
                                    *inp,
                                    back@,
                                    upto_e1[q2],
                                ).contains(x5) by {
                                    if q2 < upto_e.len() {
                                        assert(upto_e1[q2] == upto_e[q2]);
                                    } else {
                                        assert(upto_e1[q2] == e as int);
                                        assert(!eset.contains(x5));
                                    }
                                }
                            },
                        }
                    }
                }
            }
        } else {
            proof {
                assert(emit_indices_upto(*inp, back@, e as int + 1) == upto_e);
            }
        }
        e += 1;
    }

    proof {
        let fs = final_sets(*inp, back@);
        let upto_n = emit_indices_upto(*inp, back@, n as int);
        assert(fs.len() == upto_n.len());
        assert forall|q: int| 0 <= q < fs.len() implies #[trigger] fs[q] == emitted_set(
            *inp,
            back@,
            upto_n[q],
        ) by {}
        assert(!(exists|q: int| 0 <= q < fs.len() && set_conflict(*inp, #[trigger] fs[q])));
        assert(spec_identify(*inp) == Ok::<Seq<Set<int>>, SchedulerError>(fs));
    }
    Ok(PassSchedule { passes, passes_back })
}

} // verus!
