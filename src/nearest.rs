use vstd::prelude::*;

verus! {

/// A hit found while scanning candidates: the candidate's index and the key of
/// its ray parameter `t` (keys order as the parameters do).
pub type Hit = (usize, u64);

/// The nearer of two optional hits; on equal keys the second one wins.
pub open spec fn closer(a: Option<Hit>, b: Option<Hit>) -> Option<Hit> {
    match (a, b) {
        (None, _) => b,
        (_, None) => a,
        (Some(x), Some(y)) => if x.1 < y.1 { a } else { b },
    }
}

/// Scanning `ids` in order, the first candidate with the smallest key among
/// those that `hits` reports as hit.
pub open spec fn nearest_of(ids: Seq<usize>, hits: spec_fn(usize) -> Option<u64>) -> Option<Hit>
    decreases ids.len(),
{
    if ids.len() == 0 {
        None
    } else {
        let prev = nearest_of(ids.drop_last(), hits);
        let i = ids.last();
        match hits(i) {
            None => prev,
            Some(t) => match prev {
                None => Some((i, t)),
                Some(p) => if t < p.1 { Some((i, t)) } else { prev },
            },
        }
    }
}

/// `r` is a nearest hit among `ids`: none when no candidate is hit; otherwise
/// a hit candidate whose key is at most that of every hit candidate.
pub open spec fn is_nearest(r: Option<Hit>, ids: Seq<usize>, hits: spec_fn(usize) -> Option<u64>) -> bool {
    match r {
        None => forall|k: int| 0 <= k < ids.len() ==> (#[trigger] hits(ids[k])).is_none(),
        Some(h) => {
            &&& ids.contains(h.0)
            &&& hits(h.0) == Some(h.1)
            &&& forall|k: int|
                0 <= k < ids.len() && (#[trigger] hits(ids[k])).is_some() ==> h.1 <= hits(ids[k]).unwrap()
        },
    }
}

/// The indices `0..n` in order.
pub open spec fn indices(n: nat) -> Seq<usize> {
    Seq::new(n, |i: int| i as usize)
}

/// The in-order scan finds a nearest hit.
pub proof fn lemma_nearest_of_is_nearest(ids: Seq<usize>, hits: spec_fn(usize) -> Option<u64>)
    ensures
        is_nearest(nearest_of(ids, hits), ids, hits),
    decreases ids.len(),
{
    if ids.len() > 0 {
        let init = ids.drop_last();
        lemma_nearest_of_is_nearest(init, hits);
        let prev = nearest_of(init, hits);
        assert forall|k: int| 0 <= k < init.len() implies init[k] == ids[k] by {}
        if let Some(p) = prev {
            assert(init.contains(p.0));
            let w = choose|k: int| 0 <= k < init.len() && init[k] == p.0;
            assert(ids[w] == p.0);
        }
        let r = nearest_of(ids, hits);
        if let Some(h) = r {
            if h.0 == ids.last() {
                assert(ids[ids.len() - 1] == h.0);
            }
        }
    }
}

/// Two nearest hits among candidates that hold the same hit keys agree on
/// whether there is a hit and on its key.
pub proof fn lemma_nearest_unique(
    a: Option<Hit>,
    b: Option<Hit>,
    ids_a: Seq<usize>,
    ids_b: Seq<usize>,
    hits: spec_fn(usize) -> Option<u64>,
)
    requires
        is_nearest(a, ids_a, hits),
        is_nearest(b, ids_b, hits),
        forall|i: usize| hits(i).is_some() ==> (ids_a.contains(i) <==> ids_b.contains(i)),
    ensures
        a.is_some() == b.is_some(),
        a.is_some() ==> a.unwrap().1 == b.unwrap().1,
{
    if let Some(x) = a {
        assert(ids_b.contains(x.0));
        let kb = choose|k: int| 0 <= k < ids_b.len() && ids_b[k] == x.0;
        assert(hits(ids_b[kb]).is_some());
        if let Some(y) = b {
            assert(ids_a.contains(y.0));
            let ka = choose|k: int| 0 <= k < ids_a.len() && ids_a[k] == y.0;
            assert(hits(ids_a[ka]).is_some());
        }
    } else if let Some(y) = b {
        assert(ids_a.contains(y.0));
        let ka = choose|k: int| 0 <= k < ids_a.len() && ids_a[k] == y.0;
        assert(hits(ids_a[ka]).is_some());
    }
}

/// The nearer of two optional hits; on equal keys the second one wins.
pub fn nearer(a: Option<Hit>, b: Option<Hit>) -> (r: Option<Hit>)
    ensures
        r == closer(a, b),
{
    match (a, b) {
        (None, _) => b,
        (_, None) => a,
        (Some(x), Some(y)) => if x.1 < y.1 {
            a
        } else {
            b
        },
    }
}

/// The first candidate with the smallest key among those hit; `hits[i]` is the
/// key of candidate `i`'s hit, if it was hit.
pub fn nearest_hit(hits: &Vec<Option<u64>>) -> (r: Option<Hit>)
    ensures
        r == nearest_of(indices(hits.len() as nat), |i: usize| hits@[i as int]),
{
    let ghost f = |i: usize| hits@[i as int];
    let mut best: Option<Hit> = None;
    let mut k: usize = 0;
    while k < hits.len()
        invariant
            k <= hits.len(),
            f == (|i: usize| hits@[i as int]),
            best == nearest_of(indices(k as nat), f),
        decreases hits.len() - k,
    {
        proof {
            assert(indices((k + 1) as nat).drop_last() =~= indices(k as nat));
        }
        match hits[k] {
            None => {},
            Some(t) => {
                let better = match best {
                    None => true,
                    Some(p) => t < p.1,
                };
                if better {
                    best = Some((k, t));
                }
            },
        }
        k = k + 1;
    }
    best
}

} // verus!
