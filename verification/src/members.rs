//! Sets of voting members, kept as ascending id lists.
//!
//! A cluster configuration is a set of node ids. Everywhere the library stores
//! one, it is a list in ascending order without repetitions, so that equal
//! configurations are equal lists and encode to equal bytes.

use vstd::prelude::*;

verus! {

/// `ids` is strictly ascending: sorted, and nothing occurs twice.
pub open spec fn ascending(ids: Seq<u64>) -> bool {
    forall|i: int, j: int| 0 <= i < j < ids.len() ==> ids[i] < ids[j]
}

/// `ids` with `id` put in its place, unless it is there already.
pub open spec fn insert_id(ids: Seq<u64>, id: u64) -> Seq<u64>
    decreases ids.len(),
{
    if ids.len() == 0 || ids.last() < id {
        ids.push(id)
    } else if ids.last() == id {
        ids
    } else {
        insert_id(ids.drop_last(), id).push(ids.last())
    }
}

/// The ids of `ids` in ascending order, each once.
pub open spec fn sorted_ids(ids: Seq<u64>) -> Seq<u64>
    decreases ids.len(),
{
    if ids.len() == 0 {
        Seq::empty()
    } else {
        insert_id(sorted_ids(ids.drop_last()), ids.last())
    }
}

/// `ids` without `id`.
pub open spec fn without(ids: Seq<u64>, id: u64) -> Seq<u64> {
    ids.filter(|x: u64| x != id)
}

/// The ids of `ids` in their order, each once.
pub open spec fn distinct(ids: Seq<u64>) -> Seq<u64>
    decreases ids.len(),
{
    if ids.len() == 0 {
        Seq::empty()
    } else if distinct(ids.drop_last()).contains(ids.last()) {
        distinct(ids.drop_last())
    } else {
        distinct(ids.drop_last()).push(ids.last())
    }
}

/// Inserting keeps the order and adds exactly the one id.
pub proof fn lemma_insert_id(ids: Seq<u64>, id: u64)
    requires
        ascending(ids),
    ensures
        ascending(insert_id(ids, id)),
        forall|x: u64| #[trigger] insert_id(ids, id).contains(x) <==> (ids.contains(x) || x == id),
        insert_id(ids, id).len() == ids.len() + (if ids.contains(id) { 0int } else { 1int }),
    decreases ids.len(),
{
    let r = insert_id(ids, id);
    if ids.len() == 0 || ids.last() < id {
        assert forall|x: u64| #[trigger] r.contains(x) <==> (ids.contains(x) || x == id) by {
            if ids.contains(x) {
                let k = choose|k: int| 0 <= k < ids.len() && ids[k] == x;
                assert(r[k] == x);
            }
            assert(r[ids.len() as int] == id);
        }
        assert(!ids.contains(id)) by {
            if ids.contains(id) {
                let k = choose|k: int| 0 <= k < ids.len() && ids[k] == id;
                assert(ids[k] <= ids.last());
            }
        }
    } else if ids.last() == id {
        assert(ids[ids.len() - 1] == id);
    } else {
        let short = ids.drop_last();
        let inner = insert_id(short, id);
        lemma_insert_id(short, id);
        assert forall|i: int, j: int| 0 <= i < j < r.len() implies r[i] < r[j] by {
            if j == r.len() - 1 {
                assert(inner.contains(inner[i]));
                if short.contains(inner[i]) {
                    let k = choose|k: int| 0 <= k < short.len() && short[k] == inner[i];
                    assert(ids[k] < ids[ids.len() - 1]);
                }
            } else {
                assert(inner[i] < inner[j]);
            }
        }
        assert forall|x: u64| #[trigger] r.contains(x) <==> (ids.contains(x) || x == id) by {
            if r.contains(x) {
                let k = choose|k: int| 0 <= k < r.len() && r[k] == x;
                if k < inner.len() {
                    assert(inner.contains(x));
                    if short.contains(x) {
                        let m = choose|m: int| 0 <= m < short.len() && short[m] == x;
                        assert(ids[m] == x);
                    }
                } else {
                    assert(ids[ids.len() - 1] == x);
                }
            }
            if ids.contains(x) || x == id {
                if x == ids.last() {
                    assert(r[r.len() - 1] == x);
                } else {
                    if ids.contains(x) {
                        let m = choose|m: int| 0 <= m < ids.len() && ids[m] == x;
                        assert(short[m] == x);
                    }
                    assert(inner.contains(x));
                    let k = choose|k: int| 0 <= k < inner.len() && inner[k] == x;
                    assert(r[k] == x);
                }
            }
        }
        assert(ids.contains(id) <==> short.contains(id)) by {
            if ids.contains(id) {
                let m = choose|m: int| 0 <= m < ids.len() && ids[m] == id;
                assert(short[m] == id);
            }
            if short.contains(id) {
                let m = choose|m: int| 0 <= m < short.len() && short[m] == id;
                assert(ids[m] == id);
            }
        }
    }
}

/// Sorting keeps exactly the ids there were, in ascending order.
pub proof fn lemma_sorted_ids(ids: Seq<u64>)
    ensures
        ascending(sorted_ids(ids)),
        forall|x: u64| #[trigger] sorted_ids(ids).contains(x) <==> ids.contains(x),
        sorted_ids(ids).len() <= ids.len(),
    decreases ids.len(),
{
    if ids.len() > 0 {
        let short = ids.drop_last();
        lemma_sorted_ids(short);
        lemma_insert_id(sorted_ids(short), ids.last());
        assert forall|x: u64| #[trigger] sorted_ids(ids).contains(x) <==> ids.contains(x) by {
            assert(sorted_ids(ids).contains(x) <==> (sorted_ids(short).contains(x) || x
                == ids.last()));
            if short.contains(x) {
                let m = choose|m: int| 0 <= m < short.len() && short[m] == x;
                assert(ids[m] == x);
            }
            if ids.contains(x) {
                let m = choose|m: int| 0 <= m < ids.len() && ids[m] == x;
                if m < short.len() {
                    assert(short[m] == x);
                }
            }
            assert(ids[ids.len() - 1] == ids.last());
        }
    }
}

/// An ascending list is its own sorted form.
pub proof fn lemma_sorted_ids_of_ascending(ids: Seq<u64>)
    requires
        ascending(ids),
    ensures
        sorted_ids(ids) == ids,
    decreases ids.len(),
{
    if ids.len() > 0 {
        let short = ids.drop_last();
        lemma_sorted_ids_of_ascending(short);
        if short.len() > 0 {
            assert(ids[ids.len() - 2] < ids[ids.len() - 1]);
        }
        assert(insert_id(short, ids.last()) =~= ids);
    } else {
        assert(sorted_ids(ids) =~= ids);
    }
}

/// Two ascending lists with the same members are the same list.
pub proof fn lemma_ascending_unique(a: Seq<u64>, b: Seq<u64>)
    requires
        ascending(a),
        ascending(b),
        forall|x: u64| #[trigger] a.contains(x) <==> b.contains(x),
    ensures
        a == b,
    decreases a.len(),
{
    if a.len() == 0 {
        if b.len() > 0 {
            assert(b.contains(b[0]));
            assert(a.contains(b[0]));
        }
        assert(a =~= b);
    } else {
        assert(a.contains(a[a.len() - 1]));
        assert(b.contains(a[a.len() - 1]));
        assert(b.contains(b[b.len() - 1]));
        assert(a.contains(b[b.len() - 1]));
        let ka = choose|k: int| 0 <= k < a.len() && a[k] == b.last();
        let kb = choose|k: int| 0 <= k < b.len() && b[k] == a.last();
        assert(a.last() == b.last()) by {
            if ka < a.len() - 1 {
                assert(a[ka] < a[a.len() - 1]);
            }
            if kb < b.len() - 1 {
                assert(b[kb] < b[b.len() - 1]);
            }
        }
        let sa = a.drop_last();
        let sb = b.drop_last();
        assert forall|x: u64| #[trigger] sa.contains(x) <==> sb.contains(x) by {
            if sa.contains(x) {
                let k = choose|k: int| 0 <= k < sa.len() && sa[k] == x;
                assert(a[k] == x && a[k] < a[a.len() - 1]);
                assert(a.contains(x));
                assert(b.contains(x));
                let m = choose|m: int| 0 <= m < b.len() && b[m] == x;
                assert(sb[m] == x);
            }
            if sb.contains(x) {
                let k = choose|k: int| 0 <= k < sb.len() && sb[k] == x;
                assert(b[k] == x && b[k] < b[b.len() - 1]);
                assert(b.contains(x));
                assert(a.contains(x));
                let m = choose|m: int| 0 <= m < a.len() && a[m] == x;
                assert(sa[m] == x);
            }
        }
        lemma_ascending_unique(sa, sb);
        assert(a =~= sa.push(a.last()));
        assert(b =~= sb.push(b.last()));
    }
}

/// Taking an id out removes exactly that id.
pub proof fn lemma_without_holds(ids: Seq<u64>, id: u64)
    ensures
        forall|x: u64| #[trigger] without(ids, id).contains(x) <==> (ids.contains(x) && x != id),
    decreases ids.len(),
{
    reveal(Seq::filter);
    let keep = |x: u64| x != id;
    let r = without(ids, id);
    if ids.len() > 0 {
        let short = ids.drop_last();
        let inner = without(short, id);
        lemma_without_holds(short, id);
        assert(r == if keep(ids.last()) { inner.push(ids.last()) } else { inner });
        assert forall|x: u64| #[trigger] r.contains(x) <==> (ids.contains(x) && x != id) by {
            if r.contains(x) {
                let k = choose|k: int| 0 <= k < r.len() && r[k] == x;
                if k < inner.len() {
                    assert(inner.contains(x));
                    let m = choose|m: int| 0 <= m < short.len() && short[m] == x;
                    assert(ids[m] == x);
                } else {
                    assert(ids[ids.len() - 1] == x);
                }
            }
            if ids.contains(x) && x != id {
                let m = choose|m: int| 0 <= m < ids.len() && ids[m] == x;
                if m < short.len() {
                    assert(short[m] == x);
                    assert(inner.contains(x));
                    let k = choose|k: int| 0 <= k < inner.len() && inner[k] == x;
                    assert(r[k] == x);
                } else {
                    assert(r[r.len() - 1] == x);
                }
            }
        }
    }
}

/// Taking an id out keeps the order and removes exactly that id.
pub proof fn lemma_without(ids: Seq<u64>, id: u64)
    requires
        ascending(ids),
    ensures
        ascending(without(ids, id)),
        forall|x: u64| #[trigger] without(ids, id).contains(x) <==> (ids.contains(x) && x != id),
        without(ids, id).len() == ids.len() - (if ids.contains(id) { 1int } else { 0int }),
    decreases ids.len(),
{
    reveal(Seq::filter);
    let keep = |x: u64| x != id;
    let r = without(ids, id);
    lemma_without_holds(ids, id);
    if ids.len() > 0 {
        let short = ids.drop_last();
        let inner = without(short, id);
        lemma_without(short, id);
        assert(r == if keep(ids.last()) { inner.push(ids.last()) } else { inner });
        assert forall|i: int, j: int| 0 <= i < j < r.len() implies r[i] < r[j] by {
            if j < inner.len() {
                assert(inner[i] < inner[j]);
            } else {
                assert(inner.contains(inner[i]));
                let m = choose|m: int| 0 <= m < short.len() && short[m] == inner[i];
                assert(ids[m] < ids[ids.len() - 1]);
            }
        }
        assert(ids.contains(id) <==> (short.contains(id) || ids.last() == id)) by {
            if short.contains(id) {
                let m = choose|m: int| 0 <= m < short.len() && short[m] == id;
                assert(ids[m] == id);
            }
            if ids.contains(id) {
                let m = choose|m: int| 0 <= m < ids.len() && ids[m] == id;
                if m < short.len() {
                    assert(short[m] == id);
                }
            }
            assert(ids[ids.len() - 1] == ids.last());
        }
        if ids.last() == id && short.contains(id) {
            let m = choose|m: int| 0 <= m < short.len() && short[m] == id;
            assert(ids[m] < ids[ids.len() - 1]);
        }
    }
}

/// Dropping repetitions keeps exactly the ids that were there.
pub proof fn lemma_distinct(ids: Seq<u64>)
    ensures
        distinct(ids).no_duplicates(),
        forall|x: u64| #[trigger] distinct(ids).contains(x) <==> ids.contains(x),
    decreases ids.len(),
{
    if ids.len() > 0 {
        let short = ids.drop_last();
        let inner = distinct(short);
        let r = distinct(ids);
        lemma_distinct(short);
        assert forall|x: u64| #[trigger] r.contains(x) <==> ids.contains(x) by {
            if r.contains(x) && !inner.contains(x) {
                assert(ids[ids.len() - 1] == x);
            }
            if inner.contains(x) {
                assert(short.contains(x));
                let m = choose|m: int| 0 <= m < short.len() && short[m] == x;
                assert(ids[m] == x);
                let k = choose|k: int| 0 <= k < inner.len() && inner[k] == x;
                assert(r[k] == x);
            }
            if ids.contains(x) {
                let m = choose|m: int| 0 <= m < ids.len() && ids[m] == x;
                if m < short.len() {
                    assert(short[m] == x);
                    assert(inner.contains(x));
                } else if r.len() > inner.len() {
                    assert(r[inner.len() as int] == x);
                }
            }
        }
    }
}

/// A list without repetitions is its own distinct form.
pub proof fn lemma_distinct_of_distinct(ids: Seq<u64>)
    requires
        ids.no_duplicates(),
    ensures
        distinct(ids) == ids,
    decreases ids.len(),
{
    if ids.len() > 0 {
        let short = ids.drop_last();
        lemma_distinct_of_distinct(short);
        if short.contains(ids.last()) {
            let k = choose|k: int| 0 <= k < short.len() && short[k] == ids.last();
            assert(ids[k] == ids[ids.len() - 1]);
        }
        assert(short.push(ids.last()) =~= ids);
    }
}

/// Taking an id out of a list that does not hold it changes nothing.
pub proof fn lemma_without_absent(ids: Seq<u64>, id: u64)
    requires
        !ids.contains(id),
    ensures
        without(ids, id) == ids,
    decreases ids.len(),
{
    reveal(Seq::filter);
    if ids.len() > 0 {
        let short = ids.drop_last();
        assert(ids[ids.len() - 1] != id);
        assert forall|k: int| 0 <= k < short.len() implies short[k] != id by {
            assert(ids[k] != id);
        }
        lemma_without_absent(short, id);
        assert(short.push(ids.last()) =~= ids);
    }
}

/// Says whether `ids` holds `id`.
pub fn contains_id(ids: &[u64], id: u64) -> (r: bool)
    ensures
        r == ids@.contains(id),
{
    let mut i: usize = 0;
    while i < ids.len()
        invariant
            i <= ids@.len(),
            forall|k: int| 0 <= k < i ==> ids@[k] != id,
        decreases ids@.len() - i,
    {
        if ids[i] == id {
            assert(ids@[i as int] == id);
            return true;
        }
        i = i + 1;
    }
    false
}

/// Puts `id` into the ascending list `ids`, unless it is there already.
pub fn add_id(ids: &mut Vec<u64>, id: u64)
    requires
        ascending(old(ids)@),
    ensures
        final(ids)@ == insert_id(old(ids)@, id),
        ascending(final(ids)@),
{
    let ghost before = ids@;
    proof {
        lemma_insert_id(before, id);
    }
    let mut at: usize = ids.len();
    proof {
        assert(before.take(before.len() as int) =~= before);
        assert(insert_id(before, id) =~= insert_id(before, id) + before.skip(before.len() as int));
    }
    while at > 0 && ids[at - 1] > id
        invariant
            at <= ids@.len(),
            ids@ == before,
            ascending(before),
            insert_id(before, id) == insert_id(before.take(at as int), id) + before.skip(at as int),
        decreases at,
    {
        proof {
            let t = before.take(at as int);
            assert(t.drop_last() =~= before.take(at - 1));
            assert(insert_id(t, id) =~= insert_id(before.take(at - 1), id).push(t.last()));
            assert(insert_id(before.take(at - 1), id) + before.skip(at - 1) =~= insert_id(t, id)
                + before.skip(at as int));
        }
        at = at - 1;
    }
    assert(before.take(at as int) + before.skip(at as int) =~= before);
    if at > 0 && ids[at - 1] == id {
        assert(before.take(at as int).last() == id);
        assert(insert_id(before.take(at as int), id) =~= before.take(at as int));
    } else {
        assert(insert_id(before.take(at as int), id) =~= before.take(at as int).push(id));
        ids.insert(at, id);
        assert(ids@ =~= before.take(at as int).push(id) + before.skip(at as int));
    }
}

/// Returns `ids` in ascending order, each id once.
pub fn sort_ids(ids: &[u64]) -> (r: Vec<u64>)
    ensures
        r@ == sorted_ids(ids@),
        ascending(r@),
{
    let mut out: Vec<u64> = Vec::new();
    let mut i: usize = 0;
    while i < ids.len()
        invariant
            i <= ids@.len(),
            out@ == sorted_ids(ids@.take(i as int)),
            ascending(out@),
        decreases ids@.len() - i,
    {
        proof {
            assert(ids@.take(i + 1).drop_last() =~= ids@.take(i as int));
        }
        add_id(&mut out, ids[i]);
        i = i + 1;
    }
    assert(ids@.take(ids@.len() as int) =~= ids@);
    out
}

/// Returns `ids` without `id`.
pub fn remove_id(ids: &[u64], id: u64) -> (r: Vec<u64>)
    ensures
        r@ == without(ids@, id),
{
    let mut out: Vec<u64> = Vec::new();
    let mut i: usize = 0;
    reveal(Seq::filter);
    while i < ids.len()
        invariant
            i <= ids@.len(),
            out@ == without(ids@.take(i as int), id),
        decreases ids@.len() - i,
    {
        proof {
            reveal(Seq::filter);
            assert(ids@.take(i + 1).drop_last() =~= ids@.take(i as int));
        }
        if ids[i] != id {
            out.push(ids[i]);
        }
        i = i + 1;
    }
    assert(ids@.take(ids@.len() as int) =~= ids@);
    out
}

/// Returns the ids of `ids` in their order, each once.
pub fn distinct_ids(ids: &[u64]) -> (r: Vec<u64>)
    ensures
        r@ == distinct(ids@),
{
    let mut out: Vec<u64> = Vec::new();
    let mut i: usize = 0;
    while i < ids.len()
        invariant
            i <= ids@.len(),
            out@ == distinct(ids@.take(i as int)),
        decreases ids@.len() - i,
    {
        proof {
            assert(ids@.take(i + 1).drop_last() =~= ids@.take(i as int));
        }
        if !contains_id(out.as_slice(), ids[i]) {
            out.push(ids[i]);
        }
        i = i + 1;
    }
    assert(ids@.take(ids@.len() as int) =~= ids@);
    out
}

} // verus!
