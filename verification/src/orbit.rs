//! The plain-value rules of the idea-orbit board: which ideas stay after a delete
//! and in what order, which dependency links are kept or added, which id comes
//! next, and where a named snapshot goes. Ideas are handled by their ids; the
//! caller keeps each idea's other fields beside it.

use vstd::prelude::*;
use crate::text::{lemma_filter_push, trim, trim_spec};

verus! {

/// A dependency from one idea to another, by id.
#[derive(Clone, Copy, Debug, PartialEq, Eq, Structural)]
pub struct Link {
    pub from: u32,
    pub to: u32,
}

/// Whether idea `a` comes before idea `b` when ideas are ordered by id, ties kept
/// in their original order.
pub open spec fn id_before(ids: Seq<u32>, a: int, b: int) -> bool {
    ids[a] < ids[b] || (ids[a] == ids[b] && a < b)
}

/// `order` lists, each once, the positions of the ideas whose id is not `removed`,
/// sorted by id with ties in their original order (a stable sort).
pub open spec fn is_remaining_order(ids: Seq<u32>, removed: u32, order: Seq<usize>) -> bool {
    &&& forall|k: int|
        0 <= k < order.len() ==> #[trigger] order[k] < ids.len() && ids[order[k] as int] != removed
    &&& forall|i: int|
        0 <= i < ids.len() && ids[i] != removed ==> #[trigger] order.contains(i as usize)
    &&& forall|k: int, l: int|
        0 <= k < l < order.len() ==> id_before(ids, #[trigger] order[k] as int, #[trigger] order[l] as int)
}

/// A link that does not touch idea `id`.
pub open spec fn untouched_by(id: u32) -> spec_fn(Link) -> bool {
    |l: Link| l.from != id && l.to != id
}

/// A link that does not start at idea `id`.
pub open spec fn not_from(id: u32) -> spec_fn(Link) -> bool {
    |l: Link| l.from != id
}

/// What is left of the board after an idea is deleted.
pub struct DeleteOutcome {
    /// Positions, in the old idea list, of the ideas that stay, in their new order.
    pub order: Vec<usize>,
    /// The idea selected afterwards: the first one that stays.
    pub selected: Option<u32>,
    /// The links that stay.
    pub links: Vec<Link>,
}

/// The positions of the ideas whose id is not `removed`, stably sorted by id.
pub fn remaining_order(ids: &Vec<u32>, removed: u32) -> (order: Vec<usize>)
    ensures
        is_remaining_order(ids@, removed, order@),
{
    let mut order: Vec<usize> = Vec::new();
    let mut i: usize = 0;
    while i < ids.len()
        invariant
            i <= ids@.len(),
            forall|k: int| 0 <= k < order@.len() ==> #[trigger] order@[k] < i && ids@[order@[k] as int] != removed,
            forall|j: int| 0 <= j < i && ids@[j] != removed ==> #[trigger] order@.contains(j as usize),
            forall|k: int, l: int|
                0 <= k < l < order@.len() ==> id_before(ids@, #[trigger] order@[k] as int, #[trigger] order@[l] as int),
        decreases ids@.len() - i,
    {
        let id = ids[i];
        if id != removed {
            let mut p: usize = 0;
            while p < order.len() && ids[order[p]] <= id
                invariant
                    p <= order@.len(),
                    i < ids@.len(),
                    id == ids@[i as int],
                    forall|k: int| 0 <= k < order@.len() ==> #[trigger] order@[k] < i,
                    forall|k: int| 0 <= k < p ==> ids@[#[trigger] order@[k] as int] <= id,
                decreases order@.len() - p,
            {
                p = p + 1;
            }
            let ghost old_order = order@;
            assert forall|k: int| p <= k < old_order.len() implies ids@[#[trigger] old_order[k] as int] > id by {
                if ids@[old_order[k] as int] <= id {
                    assert(id_before(ids@, old_order[p as int] as int, old_order[k] as int) || p == k);
                }
            }
            order.insert(p, i);
            assert forall|j: int| 0 <= j <= i && ids@[j] != removed implies #[trigger] order@.contains(j as usize) by {
                if j < i {
                    assert(old_order.contains(j as usize));
                    let k = choose|k: int| 0 <= k < old_order.len() && old_order[k] == j as usize;
                    if k < p {
                        assert(order@[k] == j as usize);
                    } else {
                        assert(order@[k + 1] == j as usize);
                    }
                } else {
                    assert(order@[p as int] == i);
                }
            }
            assert forall|k: int, l: int|
                0 <= k < l < order@.len() implies id_before(ids@, #[trigger] order@[k] as int, #[trigger] order@[l] as int) by {
                if l < p {
                    assert(order@[k] == old_order[k] && order@[l] == old_order[l]);
                } else if l == p {
                    assert(order@[k] == old_order[k]);
                } else if k == p {
                    assert(order@[l] == old_order[l - 1]);
                } else if k > p {
                    assert(order@[k] == old_order[k - 1] && order@[l] == old_order[l - 1]);
                } else {
                    assert(order@[k] == old_order[k] && order@[l] == old_order[l - 1]);
                }
            }
        }
        i = i + 1;
    }
    order
}

/// The links that stay when idea `id` is dropped from them: a link stays unless
/// its start is `id`, or, when `both_ends`, unless either end is `id`.
fn filter_links(links: &Vec<Link>, id: u32, both_ends: bool) -> (r: Vec<Link>)
    ensures
        r@ == if both_ends {
            links@.filter(untouched_by(id))
        } else {
            links@.filter(not_from(id))
        },
{
    let ghost pred = if both_ends {
        untouched_by(id)
    } else {
        not_from(id)
    };
    let mut r: Vec<Link> = Vec::new();
    let mut i: usize = 0;
    proof {
        reveal(Seq::filter);
        assert(links@.subrange(0, 0) =~= Seq::<Link>::empty());
    }
    while i < links.len()
        invariant
            i <= links@.len(),
            pred == if both_ends {
                untouched_by(id)
            } else {
                not_from(id)
            },
            r@ == links@.subrange(0, i as int).filter(pred),
        decreases links@.len() - i,
    {
        let l = links[i];
        proof {
            lemma_filter_push(links@.subrange(0, i as int), l, pred);
            assert(links@.subrange(0, i + 1) =~= links@.subrange(0, i as int).push(l));
        }
        let keep = l.from != id && (!both_ends || l.to != id);
        if keep {
            r.push(l);
        }
        i = i + 1;
    }
    assert(links@.subrange(0, links@.len() as int) =~= links@);
    r
}

/// Deletes idea `active`: the ideas that stay are ordered by id, the first of them
/// becomes selected, and every link that touches `active` goes.
pub fn delete_idea(ids: &Vec<u32>, links: &Vec<Link>, active: u32) -> (r: DeleteOutcome)
    ensures
        is_remaining_order(ids@, active, r.order@),
        r.selected == if r.order@.len() > 0 {
            Some(ids@[r.order@[0] as int])
        } else {
            None
        },
        r.links@ == links@.filter(untouched_by(active)),
{
    let order = remaining_order(ids, active);
    let selected = if order.len() > 0 {
        Some(ids[order[0]])
    } else {
        None
    };
    let kept = filter_links(links, active, true);
    DeleteOutcome { order, selected, links: kept }
}

/// Removes every link that starts at `from`.
pub fn clear_links_from(links: &Vec<Link>, from: u32) -> (r: Vec<Link>)
    ensures
        r@ == links@.filter(not_from(from)),
{
    filter_links(links, from, false)
}

/// Whether a link from `from` to `to` would be added: it is no self link and not
/// present yet.
pub open spec fn link_is_new(links: Seq<Link>, from: u32, to: u32) -> bool {
    from != to && !links.contains(Link { from, to })
}

/// The links after asking for a link from the selected idea to `target`.
pub open spec fn links_after_add(links: Seq<Link>, selected: Option<u32>, target: u32) -> Seq<Link> {
    match selected {
        Some(from) => if link_is_new(links, from, target) {
            links.push(Link { from, to: target })
        } else {
            links
        },
        None => links,
    }
}

/// Adds a link from the selected idea to `target`, unless nothing is selected, the
/// link would point at its own start, or it is already there.
pub fn add_link(links: &mut Vec<Link>, selected: Option<u32>, target: u32)
    ensures
        final(links)@ == links_after_add(old(links)@, selected, target),
{
    if let Some(from) = selected {
        if from == target {
            return;
        }
        let mut i: usize = 0;
        while i < links.len()
            invariant
                i <= links@.len(),
                links@ == old(links)@,
                from != target,
                selected == Some(from),
                forall|k: int| 0 <= k < i ==> #[trigger] links@[k] != (Link { from, to: target }),
            decreases links@.len() - i,
        {
            if links[i].from == from && links[i].to == target {
                assert(links@[i as int] == (Link { from, to: target }));
                return;
            }
            i = i + 1;
        }
        links.push(Link { from, to: target });
    }
}

/// Links with no self link and no link listed twice.
pub open spec fn links_well_formed(links: Seq<Link>) -> bool {
    &&& forall|k: int| 0 <= k < links.len() ==> (#[trigger] links[k]).from != links[k].to
    &&& forall|k: int, l: int| 0 <= k < l < links.len() ==> #[trigger] links[k] != #[trigger] links[l]
}

/// The position of the first idea with id `id`.
pub fn find_idea(ids: &Vec<u32>, id: u32) -> (r: Option<usize>)
    ensures
        match r {
            Some(i) => i < ids@.len() && ids@[i as int] == id && forall|j: int| 0 <= j < i ==> ids@[j] != id,
            None => forall|j: int| 0 <= j < ids@.len() ==> ids@[j] != id,
        },
{
    let mut i: usize = 0;
    while i < ids.len()
        invariant
            i <= ids@.len(),
            forall|j: int| 0 <= j < i ==> ids@[j] != id,
        decreases ids@.len() - i,
    {
        if ids[i] == id {
            return Some(i);
        }
        i = i + 1;
    }
    None
}

/// The largest id in `ids`, or zero when there is none.
pub open spec fn max_id(ids: Seq<u32>) -> nat
    decreases ids.len(),
{
    if ids.len() == 0 {
        0
    } else {
        let m = max_id(ids.drop_last());
        if ids.last() > m {
            ids.last() as nat
        } else {
            m
        }
    }
}

proof fn lemma_max_id_bound(ids: Seq<u32>, b: nat)
    requires
        forall|j: int| 0 <= j < ids.len() ==> ids[j] <= b,
    ensures
        max_id(ids) <= b,
    decreases ids.len(),
{
    if ids.len() > 0 {
        lemma_max_id_bound(ids.drop_last(), b);
    }
}

/// Selection and id counter once a whole set of ideas has been loaded.
pub struct LoadedState {
    /// The first loaded idea, which becomes selected.
    pub selected: Option<u32>,
    /// The id the next new idea gets: one more than the largest loaded id.
    pub next_id: u32,
}

/// The selection and id counter after the ideas `ids` are imported or restored.
pub fn state_after_load(ids: &Vec<u32>) -> (r: LoadedState)
    requires
        forall|j: int| 0 <= j < ids@.len() ==> ids@[j] < u32::MAX,
    ensures
        r.selected == if ids@.len() > 0 {
            Some(ids@[0])
        } else {
            None
        },
        r.next_id == max_id(ids@) + 1,
{
    let mut m: u32 = 0;
    let mut i: usize = 0;
    assert(ids@.subrange(0, 0) =~= Seq::<u32>::empty());
    while i < ids.len()
        invariant
            i <= ids@.len(),
            forall|j: int| 0 <= j < ids@.len() ==> ids@[j] < u32::MAX,
            m == max_id(ids@.subrange(0, i as int)),
            m < u32::MAX,
        decreases ids@.len() - i,
    {
        assert(ids@.subrange(0, i + 1).drop_last() =~= ids@.subrange(0, i as int));
        if ids[i] > m {
            m = ids[i];
        }
        i = i + 1;
    }
    assert(ids@.subrange(0, ids@.len() as int) =~= ids@);
    let selected = if ids.len() > 0 {
        Some(ids[0])
    } else {
        None
    };
    LoadedState { selected, next_id: m + 1 }
}

/// The text of an idea about to be added.
pub struct NewIdea {
    pub id: u32,
    pub title: String,
    pub notes: String,
    /// The id counter after this idea.
    pub next_id: u32,
}

/// The idea that the add form describes, or `None` when its title is blank. The
/// new idea takes `next_id`; title and notes are trimmed.
pub fn prepare_new_idea(title: &str, notes: &str, next_id: u32) -> (r: Option<NewIdea>)
    requires
        trim_spec(title@).len() > 0 ==> next_id < u32::MAX,
    ensures
        match r {
            Some(idea) => trim_spec(title@).len() > 0 && idea.id == next_id && idea.title@ == trim_spec(
                title@,
            ) && idea.notes@ == trim_spec(notes@) && idea.next_id == next_id + 1,
            None => trim_spec(title@).len() == 0,
        },
{
    let t = trim(title);
    if t.as_str().unicode_len() == 0 {
        return None;
    }
    let n = trim(notes);
    Some(NewIdea { id: next_id, title: t, notes: n, next_id: next_id + 1 })
}

/// Where a snapshot saved under a typed name goes.
pub enum SnapshotSlot {
    /// The name is blank: nothing is saved.
    Skip,
    /// The snapshot at this position has the name and is overwritten.
    Replace(usize),
    /// No snapshot has the name: a new one is appended under it.
    Append(String),
}

/// Decides where a snapshot named `raw_name` (trimmed first) is saved among
/// snapshots named `names`.
pub fn snapshot_slot(names: &Vec<String>, raw_name: &str) -> (r: SnapshotSlot)
    ensures
        (r is Skip) == (trim_spec(raw_name@).len() == 0),
        r matches SnapshotSlot::Replace(i) ==> trim_spec(raw_name@).len() > 0 && i < names@.len()
            && names@[i as int]@ == trim_spec(raw_name@) && forall|j: int|
            0 <= j < i ==> names@[j]@ != trim_spec(raw_name@),
        r matches SnapshotSlot::Append(s) ==> trim_spec(raw_name@).len() > 0 && s@ == trim_spec(
            raw_name@,
        ) && forall|j: int| 0 <= j < names@.len() ==> names@[j]@ != trim_spec(raw_name@),
{
    let name = trim(raw_name);
    if name.as_str().unicode_len() == 0 {
        return SnapshotSlot::Skip;
    }
    let mut i: usize = 0;
    while i < names.len()
        invariant
            i <= names@.len(),
            name@ == trim_spec(raw_name@),
            name@.len() > 0,
            forall|j: int| 0 <= j < i ==> names@[j]@ != name@,
        decreases names@.len() - i,
    {
        if names[i] == name {
            return SnapshotSlot::Replace(i);
        }
        i = i + 1;
    }
    SnapshotSlot::Append(name)
}

proof fn lemma_filter_subset<A>(s: Seq<A>, p: spec_fn(A) -> bool)
    ensures
        forall|k: int| 0 <= k < s.filter(p).len() ==> s.contains(#[trigger] s.filter(p)[k]),
    decreases s.len(),
{
    reveal(Seq::filter);
    if s.len() > 0 {
        let d = s.drop_last();
        lemma_filter_subset(d, p);
        let f = s.filter(p);
        let fd = d.filter(p);
        assert forall|k: int| 0 <= k < f.len() implies s.contains(#[trigger] f[k]) by {
            if k < fd.len() {
                assert(f[k] == fd[k]);
                let w = choose|w: int| 0 <= w < d.len() && d[w] == fd[k];
                assert(s[w] == d[w]);
            } else {
                assert(f[k] == s[s.len() - 1]);
            }
        }
    }
}

/// Dropping links keeps the link list free of self links and repeats.
pub proof fn law_filter_keeps_links_well_formed(links: Seq<Link>, p: spec_fn(Link) -> bool)
    requires
        links_well_formed(links),
    ensures
        links_well_formed(links.filter(p)),
    decreases links.len(),
{
    reveal(Seq::filter);
    if links.len() > 0 {
        let d = links.drop_last();
        assert(links_well_formed(d)) by {
            assert forall|k: int, l: int| 0 <= k < l < d.len() implies #[trigger] d[k] != #[trigger] d[l] by {
                assert(links[k] != links[l]);
            }
        }
        law_filter_keeps_links_well_formed(d, p);
        lemma_filter_subset(d, p);
        let x = links.last();
        let fd = d.filter(p);
        let f = links.filter(p);
        if p(x) {
            assert forall|k: int| 0 <= k < fd.len() implies #[trigger] fd[k] != x by {
                assert(d.contains(fd[k]));
                let w = choose|w: int| 0 <= w < d.len() && d[w] == fd[k];
                assert(links[w] != links[links.len() - 1]);
            }
            assert forall|k: int| 0 <= k < f.len() implies (#[trigger] f[k]).from != f[k].to by {
                if k < fd.len() {
                    assert(f[k] == fd[k]);
                } else {
                    assert(f[k] == links[links.len() - 1]);
                }
            }
            assert forall|k: int, l: int| 0 <= k < l < f.len() implies #[trigger] f[k] != #[trigger] f[l] by {
                if l < fd.len() {
                    assert(f[k] == fd[k] && f[l] == fd[l]);
                } else {
                    assert(f[k] == fd[k] && f[l] == x);
                }
            }
        }
    }
}

/// Adding a link keeps the link list free of self links and repeats.
pub proof fn law_add_link_keeps_links_well_formed(links: Seq<Link>, selected: Option<u32>, target: u32)
    requires
        links_well_formed(links),
    ensures
        links_well_formed(links_after_add(links, selected, target)),
{
    if let Some(from) = selected {
        if link_is_new(links, from, target) {
            let r = links.push(Link { from, to: target });
            assert forall|k: int, l: int| 0 <= k < l < r.len() implies #[trigger] r[k] != #[trigger] r[l] by {
                if l == links.len() {
                    assert(r[k] == links[k]);
                    assert(links.contains(links[k]));
                } else {
                    assert(r[k] == links[k] && r[l] == links[l]);
                }
            }
            assert forall|k: int| 0 <= k < r.len() implies (#[trigger] r[k]).from != r[k].to by {
                if k < links.len() {
                    assert(r[k] == links[k]);
                }
            }
        }
    }
}

/// Asking twice for the same link has the effect of asking once, and afterwards
/// the link is there unless it would be a self link or nothing was selected.
pub proof fn law_add_link_idempotent(links: Seq<Link>, selected: Option<u32>, target: u32)
    ensures
        links_after_add(links_after_add(links, selected, target), selected, target) == links_after_add(
            links,
            selected,
            target,
        ),
        forall|from: u32|
            selected == Some(from) && from != target ==> #[trigger] links_after_add(links, selected, target).contains(
                Link { from, to: target },
            ),
{
    if let Some(from) = selected {
        if link_is_new(links, from, target) {
            let r = links.push(Link { from, to: target });
            assert(r[links.len() as int] == Link { from, to: target });
        }
    }
}

/// After a delete no kept link touches the deleted idea.
pub proof fn law_delete_drops_every_link_to_deleted(links: Seq<Link>, active: u32)
    ensures
        forall|k: int|
            0 <= k < links.filter(untouched_by(active)).len() ==> (#[trigger] links.filter(untouched_by(active))[k]).from
                != active && links.filter(untouched_by(active))[k].to != active,
{
    broadcast use Seq::lemma_filter_pred;
    assert forall|k: int| 0 <= k < links.filter(untouched_by(active)).len() implies (#[trigger] links.filter(untouched_by(active))[k]).from
        != active && links.filter(untouched_by(active))[k].to != active by {
        links.lemma_filter_pred(untouched_by(active), k);
    }
}

/// The id counter after a load is above every loaded id, so new ideas get fresh ids.
pub proof fn law_loaded_next_id_is_fresh(ids: Seq<u32>)
    ensures
        forall|j: int| 0 <= j < ids.len() ==> ids[j] < max_id(ids) + 1,
    decreases ids.len(),
{
    if ids.len() > 0 {
        law_loaded_next_id_is_fresh(ids.drop_last());
        assert forall|j: int| 0 <= j < ids.len() implies ids[j] < max_id(ids) + 1 by {
            if j < ids.len() - 1 {
                assert(ids[j] == ids.drop_last()[j]);
            }
        }
    }
}

/// Every id in `ids` is below the id counter `next_id`.
pub open spec fn ids_below(ids: Seq<u32>, next_id: nat) -> bool {
    forall|j: int| 0 <= j < ids.len() ==> ids[j] < next_id
}

/// The ids of the ideas kept after a delete, in their new order.
pub open spec fn ids_in_order(ids: Seq<u32>, order: Seq<usize>) -> Seq<u32> {
    order.map_values(|k: usize| ids[k as int])
}

/// Adding an idea keeps every id below the counter: the new idea takes the
/// counter, which no present idea has, and the counter moves one past it.
pub proof fn law_add_keeps_ids_fresh(ids: Seq<u32>, next_id: u32)
    requires
        ids_below(ids, next_id as nat),
        next_id < u32::MAX,
    ensures
        !ids.contains(next_id),
        ids_below(ids.push(next_id), next_id as nat + 1),
{
    assert forall|j: int| 0 <= j < ids.push(next_id).len() implies ids.push(next_id)[j] < next_id as nat + 1 by {
        if j < ids.len() {
            assert(ids.push(next_id)[j] == ids[j]);
        }
    }
}

/// Deleting an idea keeps every id below the unchanged counter.
pub proof fn law_delete_keeps_ids_fresh(ids: Seq<u32>, removed: u32, order: Seq<usize>, next_id: nat)
    requires
        ids_below(ids, next_id),
        is_remaining_order(ids, removed, order),
    ensures
        ids_below(ids_in_order(ids, order), next_id),
{
    assert forall|j: int| 0 <= j < ids_in_order(ids, order).len() implies ids_in_order(ids, order)[j]
        < next_id by {
        assert(order[j] < ids.len());
        assert(ids_in_order(ids, order)[j] == ids[order[j] as int]);
    }
}

/// After a load every loaded id is below the new counter.
pub proof fn law_load_keeps_ids_fresh(ids: Seq<u32>)
    ensures
        ids_below(ids, max_id(ids) + 1),
{
    law_loaded_next_id_is_fresh(ids);
}

/// Asking for a link never removes or reorders one: the links before are the
/// start of the links after, and at most the one asked-for link `from -> target`
/// follows them.
pub proof fn law_add_link_only_appends(links: Seq<Link>, selected: Option<u32>, target: u32)
    ensures
        links_after_add(links, selected, target).len() <= links.len() + 1,
        links_after_add(links, selected, target).subrange(0, links.len() as int) == links,
        forall|k: int| 0 <= k < links.len() ==> links_after_add(links, selected, target).contains(#[trigger] links[k]),
        links_after_add(links, selected, target).len() == links.len() + 1 ==> selected is Some
            && links_after_add(links, selected, target).last() == (Link { from: selected->0, to: target })
            && selected->0 != target && !links.contains(Link { from: selected->0, to: target }),
{
    let r = links_after_add(links, selected, target);
    assert(r.subrange(0, links.len() as int) =~= links);
    assert forall|k: int| 0 <= k < links.len() implies r.contains(#[trigger] links[k]) by {
        assert(r[k] == links[k]);
    }
}

/// The ideas that stay after a delete come in ascending order of id.
pub proof fn law_remaining_ids_ascend(ids: Seq<u32>, removed: u32, order: Seq<usize>)
    requires
        is_remaining_order(ids, removed, order),
    ensures
        forall|k: int, l: int|
            0 <= k < l < order.len() ==> ids[#[trigger] order[k] as int] <= ids[#[trigger] order[l] as int],
{
}

/// A delete keeps, in order, exactly the links that touch neither end of the
/// deleted idea: none left touches it, and every other one is still there.
pub proof fn law_delete_keeps_unrelated_links(links: Seq<Link>, active: u32)
    ensures
        forall|k: int|
            0 <= k < links.len() && links[k].from != active && links[k].to != active ==> links.filter(
                untouched_by(active),
            ).contains(#[trigger] links[k]),
        forall|k: int|
            0 <= k < links.filter(untouched_by(active)).len() ==> links.contains(
                #[trigger] links.filter(untouched_by(active))[k],
            ) && links.filter(untouched_by(active))[k].from != active && links.filter(untouched_by(active))[k].to
                != active,
{
    broadcast use Seq::lemma_filter_contains, Seq::lemma_filter_pred;
    lemma_filter_subset(links, untouched_by(active));
    law_delete_drops_every_link_to_deleted(links, active);
    assert forall|k: int| 0 <= k < links.len() && links[k].from != active && links[k].to != active implies links.filter(
        untouched_by(active),
    ).contains(#[trigger] links[k]) by {
        links.lemma_filter_contains(untouched_by(active), k);
    }
}

/// Clearing the links from an idea removes exactly the links that start at it.
pub proof fn law_clear_removes_only_outgoing(links: Seq<Link>, from: u32)
    ensures
        forall|k: int|
            0 <= k < links.len() && links[k].from != from ==> links.filter(not_from(from)).contains(#[trigger] links[k]),
        forall|k: int|
            0 <= k < links.filter(not_from(from)).len() ==> links.contains(#[trigger] links.filter(not_from(from))[k])
                && links.filter(not_from(from))[k].from != from,
{
    broadcast use Seq::lemma_filter_contains, Seq::lemma_filter_pred;
    lemma_filter_subset(links, not_from(from));
    assert forall|k: int| 0 <= k < links.len() && links[k].from != from implies links.filter(not_from(from)).contains(
        #[trigger] links[k],
    ) by {
        links.lemma_filter_contains(not_from(from), k);
    }
    assert forall|k: int| 0 <= k < links.filter(not_from(from)).len() implies links.contains(
        #[trigger] links.filter(not_from(from))[k],
    ) && links.filter(not_from(from))[k].from != from by {
        links.lemma_filter_pred(not_from(from), k);
    }
}

/// The largest id is one of the ids (zero only for no ids or only zero ids), so
/// the counter after a load is exactly one past the largest loaded id.
pub proof fn law_max_id_is_attained(ids: Seq<u32>)
    ensures
        ids.len() == 0 ==> max_id(ids) == 0,
        ids.len() > 0 ==> ids.contains(max_id(ids) as u32) && max_id(ids) <= u32::MAX,
    decreases ids.len(),
{
    if ids.len() > 0 {
        let d = ids.drop_last();
        law_max_id_is_attained(d);
        if ids.last() > max_id(d) {
            assert(ids[ids.len() - 1] == ids.last());
        } else if d.len() > 0 {
            let j = choose|j: int| 0 <= j < d.len() && d[j] == max_id(d) as u32;
            assert(ids[j] == d[j]);
        } else {
            assert(max_id(ids) == 0);
            assert(ids.last() == 0);
            assert(ids[0] == 0);
        }
    }
}

} // verus!
