use vstd::prelude::*;

verus! {

/// A stable identifier given to a port once an edge end is bound to it.
pub type PortId = usize;

/// How an edge end attaches to its node.
#[derive(Debug)]
pub enum PortChoice {
    /// The port at this index already carries the requested id.
    Reuse(usize),
    /// The best aligned of these unbound ports (indices, in port order) is to be taken.
    Pick(Vec<usize>),
    /// The node has no unbound port: the edge attaches at the node's snapped center.
    Center,
}

/// The indices of the ports that carry no id yet, in port order.
pub open spec fn unbound_ports(ids: Seq<Option<PortId>>) -> Seq<usize>
    decreases ids.len(),
{
    if ids.len() == 0 {
        seq![]
    } else {
        let rest = unbound_ports(ids.drop_last());
        if ids.last() is None {
            rest.push((ids.len() - 1) as usize)
        } else {
            rest
        }
    }
}

/// The first port that carries id `k`, if any.
pub open spec fn holder_of(ids: Seq<Option<PortId>>, k: PortId) -> Option<int>
    decreases ids.len(),
{
    if ids.len() == 0 {
        None
    } else {
        match holder_of(ids.drop_last(), k) {
            Some(i) => Some(i),
            None => if ids.last() == Some(k) {
                Some(ids.len() - 1)
            } else {
                None
            },
        }
    }
}

/// `holder_of` names the first port with id `k`, and is `None` when no port has it.
pub proof fn lemma_holder_of(ids: Seq<Option<PortId>>, k: PortId)
    ensures
        holder_of(ids, k) matches Some(i) ==> 0 <= i < ids.len() && ids[i] == Some(k) && forall|
            j: int,
        | 0 <= j < i ==> ids[j] != Some(k),
        holder_of(ids, k) is None <==> forall|j: int| 0 <= j < ids.len() ==> ids[j] != Some(k),
    decreases ids.len(),
{
    if ids.len() > 0 {
        let rest = ids.drop_last();
        lemma_holder_of(rest, k);
        assert forall|j: int| 0 <= j < rest.len() implies rest[j] == ids[j] by {}
        if holder_of(rest, k) is None {
            if ids.last() != Some(k) {
                assert forall|j: int| 0 <= j < ids.len() implies ids[j] != Some(k) by {
                    if j < rest.len() {
                        assert(rest[j] == ids[j]);
                    }
                }
            }
        }
    }
}

/// No two ports carry the same id.
pub open spec fn ids_distinct(ids: Seq<Option<PortId>>) -> bool {
    forall|i: int, j: int|
        0 <= i < ids.len() && 0 <= j < ids.len() && i != j && (#[trigger] ids[i]) is Some
            ==> ids[i] != #[trigger] ids[j]
}

proof fn lemma_unbound_ports(ids: Seq<Option<PortId>>)
    requires
        ids.len() <= usize::MAX,
    ensures
        forall|t: int|
            0 <= t < unbound_ports(ids).len() ==> 0 <= #[trigger] unbound_ports(ids)[t] < ids.len()
                && ids[unbound_ports(ids)[t] as int] is None,
        (exists|i: int| 0 <= i < ids.len() && ids[i] is None) <==> unbound_ports(ids).len() > 0,
    decreases ids.len(),
{
    if ids.len() > 0 {
        lemma_unbound_ports(ids.drop_last());
        let rest = ids.drop_last();
        let u = unbound_ports(ids);
        let ur = unbound_ports(rest);
        assert forall|t: int| 0 <= t < u.len() implies 0 <= #[trigger] u[t] < ids.len()
            && ids[u[t] as int] is None by {
            if t < ur.len() {
                assert(u[t] == ur[t]);
                assert(0 <= ur[t] < rest.len());
                assert(rest[ur[t] as int] == ids[ur[t] as int]);
            } else {
                assert(ids.last() is None);
                assert(u == ur.push((ids.len() - 1) as usize));
            }
        }
        if exists|i: int| 0 <= i < rest.len() && rest[i] is None {
            let i = choose|i: int| 0 <= i < rest.len() && rest[i] is None;
            assert(ids[i] is None);
        }
        if exists|i: int| 0 <= i < ids.len() && ids[i] is None {
            let i = choose|i: int| 0 <= i < ids.len() && ids[i] is None;
            if i < ids.len() - 1 {
                assert(rest[i] is None);
            }
        }
    }
}

/// Decides how an edge end attaches to a node whose ports carry the ids `ids`.
/// A requested id that a port already carries selects that port; otherwise the
/// unbound ports are the candidates, and with none the node's center is used.
pub fn resolve_port(ids: &Vec<Option<PortId>>, wanted: Option<PortId>) -> (r: PortChoice)
    ensures
        match r {
            PortChoice::Reuse(i) => wanted matches Some(k) && holder_of(ids@, k) == Some(i as int),
            PortChoice::Pick(v) => (wanted matches Some(k) ==> holder_of(ids@, k) is None)
                && v@ == unbound_ports(ids@) && v@.len() > 0,
            PortChoice::Center => (wanted matches Some(k) ==> holder_of(ids@, k) is None)
                && unbound_ports(ids@).len() == 0,
        },
        ids@.len() == 0 ==> r is Center,
{
    if wanted.is_some() {
        let k = wanted.unwrap();
        let mut i: usize = 0;
        while i < ids.len()
            invariant
                wanted == Some(k),
                i <= ids@.len(),
                forall|j: int| 0 <= j < i ==> ids@[j] != Some(k),
            decreases ids.len() - i,
        {
            let hit = match ids[i] {
                Some(x) => x == k,
                None => false,
            };
            if hit {
                proof {
                    lemma_holder_of(ids@, k);
                    if holder_of(ids@, k) is None {
                        assert(ids@[i as int] == Some(k));
                    }
                    let c = holder_of(ids@, k)->Some_0;
                    if c > i {
                        assert(ids@[i as int] == Some(k));
                    }
                }
                return PortChoice::Reuse(i);
            }
            i = i + 1;
        }
    }
    let mut free: Vec<usize> = Vec::new();
    let mut i: usize = 0;
    while i < ids.len()
        invariant
            i <= ids@.len(),
            free@ == unbound_ports(ids@.subrange(0, i as int)),
        decreases ids.len() - i,
    {
        proof {
            assert(ids@.subrange(0, i + 1).drop_last() =~= ids@.subrange(0, i as int));
        }
        if ids[i].is_none() {
            free.push(i);
        }
        i = i + 1;
    }
    proof {
        assert(ids@.subrange(0, ids@.len() as int) =~= ids@);
        lemma_unbound_ports(ids@);
        if let Some(k) = wanted {
            lemma_holder_of(ids@, k);
        }
    }
    if free.len() == 0 {
        PortChoice::Center
    } else {
        PortChoice::Pick(free)
    }
}

/// Binds the unbound port `i` to id `k`, unless some port already carries `k`;
/// tells whether it did. Ids stay distinct.
pub fn claim_port(ids: &mut Vec<Option<PortId>>, i: usize, k: PortId) -> (claimed: bool)
    requires
        i < old(ids)@.len(),
        old(ids)@[i as int] is None,
    ensures
        claimed == (holder_of(old(ids)@, k) is None),
        claimed ==> final(ids)@ == old(ids)@.update(i as int, Some(k)),
        !claimed ==> final(ids)@ == old(ids)@,
        ids_distinct(old(ids)@) ==> ids_distinct(final(ids)@),
{
    let mut j: usize = 0;
    while j < ids.len()
        invariant
            j <= ids@.len(),
            ids@ == old(ids)@,
            forall|t: int| 0 <= t < j ==> ids@[t] != Some(k),
        decreases ids.len() - j,
    {
        let hit = match ids[j] {
            Some(x) => x == k,
            None => false,
        };
        if hit {
            proof {
                lemma_holder_of(ids@, k);
            }
            return false;
        }
        j = j + 1;
    }
    ids.set(i, Some(k));
    proof {
        lemma_holder_of(old(ids)@, k);
        assert forall|a: int, b: int|
            0 <= a < ids@.len() && 0 <= b < ids@.len() && a != b && (#[trigger] ids@[a]) is Some
                && ids_distinct(old(ids)@) implies ids@[a] != #[trigger] ids@[b] by {
            if a == i {
                assert(old(ids)@[b] != Some(k));
            } else if b == i {
                assert(old(ids)@[a] != Some(k));
            } else {
                assert(old(ids)@[a] != old(ids)@[b]);
            }
        }
    }
    true
}

/// An edge end that asks for id `k`, where port `i` carries `k`, attaches to port
/// `i`; binding any other edge end to a port leaves that so.
pub proof fn lemma_port_id_stable(
    ids: Seq<Option<PortId>>,
    i: int,
    k: PortId,
    j: int,
    k2: PortId,
)
    requires
        ids_distinct(ids),
        0 <= i < ids.len(),
        ids[i] == Some(k),
        0 <= j < ids.len(),
        ids[j] is None,
        holder_of(ids, k2) is None,
    ensures
        holder_of(ids, k) == Some(i),
        holder_of(ids.update(j, Some(k2)), k) == Some(i),
        ids_distinct(ids.update(j, Some(k2))),
{
    let after = ids.update(j, Some(k2));
    lemma_holder_of(ids, k);
    lemma_holder_of(ids, k2);
    lemma_holder_of(after, k);
    assert forall|t: int| 0 <= t < ids.len() && t != i implies ids[t] != Some(k) by {
        assert(ids[i] != ids[t]);
    }
    assert(after[i] == Some(k));
    assert forall|t: int| 0 <= t < after.len() && t != i implies after[t] != Some(k) by {
        if t == j {
            assert(k2 != k);
        }
    }
    if holder_of(after, k) is None {
        assert(after[i] == Some(k));
    }
    let c = holder_of(after, k)->Some_0;
    if c > i {
        assert(after[i] == Some(k));
    }
    assert forall|a: int, b: int|
        0 <= a < after.len() && 0 <= b < after.len() && a != b && (#[trigger] after[a]) is Some
            implies after[a] != #[trigger] after[b] by {
        if a == j {
            assert(ids[b] != Some(k2));
        } else if b == j {
            assert(ids[a] != Some(k2));
        } else {
            assert(ids[a] != ids[b]);
        }
    }
}

} // verus!
