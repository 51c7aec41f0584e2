//! Turning Valve's relay configuration into the chooser's list of POPs.

use vstd::prelude::*;

use crate::data::{LoadedConfig, Pop, Relay, codes_distinct};
use crate::text::{has_prefix, is_prefix, lemma_seq_lt_total, lemma_seq_lt_transitive, seq_lt, str_lt};

verus! {

/// A POP as the configuration lists it. The position is the pair of IEEE-754
/// bit patterns of longitude and latitude.
#[derive(Clone, Debug)]
pub struct RawPop {
    pub desc: String,
    pub geo: Option<[u64; 2]>,
    pub tier: Option<u8>,
    pub relays: Option<Vec<Relay>>,
}

/// The relay configuration: its revision and its POPs by code, in ascending
/// code order (the order of the configuration's map).
#[derive(Clone, Debug)]
pub struct SdrConfig {
    pub revision: u64,
    pub pops: Vec<(String, RawPop)>,
}

/// The POP has a position (only such POPs are kept).
pub open spec fn has_geo(r: RawPop) -> bool {
    r.geo is Some
}

/// `p` is the POP made from the entry `code`/`r`: position copied, tier 9 when
/// absent, no relays when absent, not selected.
pub open spec fn pop_from_raw(p: Pop, code: String, r: RawPop) -> bool {
    &&& r.geo is Some
    &&& p.code@ == code@
    &&& p.desc@ == r.desc@
    &&& p.lon_bits == r.geo->0[0]
    &&& p.lat_bits == r.geo->0[1]
    &&& p.tier == (match r.tier {
        Some(t) => t,
        None => 9u8,
    })
    &&& p.relays@ == (match r.relays {
        Some(v) => v@,
        None => Seq::<Relay>::empty(),
    })
    &&& !p.selected
}

/// Order by description, then by position in the configuration.
pub open spec fn desc_key_before(d1: Seq<char>, i1: int, d2: Seq<char>, i2: int) -> bool {
    seq_lt(d1, d2) || (d1 == d2 && i1 < i2)
}

/// `pops` lists, for the entries at positions `order`, the POPs made from the
/// raw entries that have a position: every such entry exactly once, ordered by
/// description, entries with equal descriptions in configuration order.
pub open spec fn sorted_from_raw(pops: Seq<Pop>, raw: Seq<(String, RawPop)>, order: Seq<int>) -> bool {
    &&& order.len() == pops.len()
    &&& forall|i: int| 0 <= i < pops.len() ==> 0 <= #[trigger] order[i] < raw.len()
    &&& forall|i: int| 0 <= i < pops.len() ==> pop_from_raw(#[trigger] pops[i], raw[order[i]].0, raw[order[i]].1)
    &&& forall|j: int| 0 <= j < raw.len() && has_geo(#[trigger] raw[j].1) ==> exists|i: int| 0 <= i < order.len() && order[i] == j
    &&& forall|i: int, m: int| 0 <= i < m < pops.len() ==> desc_key_before(
        (#[trigger] pops[i]).desc@,
        order[i],
        (#[trigger] pops[m]).desc@,
        order[m],
    )
}

/// The POP list made from the configuration: the entries with a position,
/// sorted stably by description (a stable sort of the entries in code order).
pub open spec fn loaded_from_raw(pops: Seq<Pop>, raw: Seq<(String, RawPop)>) -> bool {
    exists|order: Seq<int>| sorted_from_raw(pops, raw, order)
}

/// The codes of the configuration's entries are distinct.
pub open spec fn raw_codes_distinct(raw: Seq<(String, RawPop)>) -> bool {
    forall|i: int, j: int| 0 <= i < j < raw.len() ==> (#[trigger] raw[i]).0@ != (#[trigger] raw[j]).0@
}

proof fn lemma_key_transitive(d1: Seq<char>, i1: int, d2: Seq<char>, i2: int, d3: Seq<char>, i3: int)
    requires
        desc_key_before(d1, i1, d2, i2),
        desc_key_before(d2, i2, d3, i3),
    ensures
        desc_key_before(d1, i1, d3, i3),
{
    if seq_lt(d1, d2) && seq_lt(d2, d3) {
        lemma_seq_lt_transitive(d1, d2, d3);
    }
}

/// The POP made from a configuration entry, or none when it has no position.
fn pop_of(code: String, r: RawPop) -> (p: Option<Pop>)
    ensures
        r.geo is None ==> p is None,
        r.geo is Some ==> (p matches Some(q) && pop_from_raw(q, code, r)),
{
    let ghost rc = r;
    let ghost cc = code;
    match r.geo {
        None => None,
        Some(g) => {
            let tier = match r.tier {
                Some(t) => t,
                None => 9u8,
            };
            let relays = match r.relays {
                Some(v) => v,
                None => Vec::new(),
            };
            let p = Pop {
                code,
                desc: r.desc,
                lon_bits: g[0],
                lat_bits: g[1],
                tier,
                relays,
                selected: false,
            };
            assert(pop_from_raw(p, cc, rc));
            Some(p)
        },
    }
}

/// The loaded configuration made from the relay configuration: the entries
/// with a position become POPs, sorted stably by description; the source is
/// recorded and the configuration counts as live when the source starts with
/// `live `.
pub fn config_from_raw(raw: SdrConfig, source: &str) -> (c: LoadedConfig)
    ensures
        c.revision == raw.revision,
        c.source@ == source@,
        c.live == is_prefix("live "@, source@),
        loaded_from_raw(c.pops@, raw.pops@),
        raw_codes_distinct(raw.pops@) ==> codes_distinct(c.pops@),
{
    let live = has_prefix(source, "live ");
    let ghost all = raw.pops@;
    let revision = raw.revision;
    let mut raws = raw.pops;
    let mut pops: Vec<Pop> = Vec::new();
    let ghost mut order: Seq<int> = Seq::empty();
    let mut k: usize = raws.len();
    while k > 0
        invariant
            raws@ == all.take(k as int),
            k <= all.len(),
            order.len() == pops@.len(),
            forall|i: int| 0 <= i < pops@.len() ==> k <= #[trigger] order[i] < all.len(),
            forall|i: int| 0 <= i < pops@.len() ==> pop_from_raw(#[trigger] pops@[i], all[order[i]].0, all[order[i]].1),
            forall|j: int| k <= j < all.len() && has_geo(#[trigger] all[j].1) ==> exists|i: int| 0 <= i < order.len() && order[i] == j,
            forall|i: int, m: int| 0 <= i < m < pops@.len() ==> desc_key_before(
                (#[trigger] pops@[i]).desc@,
                order[i],
                (#[trigger] pops@[m]).desc@,
                order[m],
            ),
            forall|i: int, m: int| 0 <= i < m < pops@.len() ==> order[i] != order[m],
        decreases k,
    {
        let entry = match raws.pop() {
            Some(e) => e,
            None => {
                return LoadedConfig { revision, source: String::from_str(source), live, pops };
            },
        };
        k = k - 1;
        assert(entry == all[k as int]);
        assert(raws@ =~= all.take(k as int));
        let (code, r) = entry;
        let ghost before = pops@;
        let ghost order_before = order;
        match pop_of(code, r) {
            None => {
                assert forall|j: int| k <= j < all.len() && has_geo(#[trigger] all[j].1) implies exists|i: int|
                    0 <= i < order.len() && order[i] == j by {
                    if j > k {
                    }
                }
            },
            Some(p) => {
                let n = pops.len();
                let mut q: usize = 0;
                while q < n && str_lt(pops[q].desc.as_str(), p.desc.as_str())
                    invariant
                        n == pops@.len(),
                        q <= n,
                        forall|i: int| 0 <= i < q ==> seq_lt(#[trigger] pops@[i].desc@, p.desc@),
                    decreases n - q,
                {
                    q = q + 1;
                }
                let ghost pd = p.desc@;
                pops.insert(q, p);
                proof {
                    order = order.insert(q as int, k as int);
                    let after = pops@;
                    assert(after == before.insert(q as int, p));
                    if q < n {
                        if before[q as int].desc@ != pd {
                            lemma_seq_lt_total(before[q as int].desc@, pd);
                        }
                    }
                    assert forall|i: int, m: int| 0 <= i < m < after.len() implies desc_key_before(
                        (#[trigger] after[i]).desc@,
                        order[i],
                        (#[trigger] after[m]).desc@,
                        order[m],
                    ) by {
                        if m < q {
                            assert(after[i] == before[i] && after[m] == before[m]);
                        } else if m == q {
                            assert(after[i] == before[i]);
                        } else if i == q {
                            assert(after[m] == before[m - 1]);
                            assert(desc_key_before(pd, k as int, before[q as int].desc@, order_before[q as int]));
                            if m - 1 > q {
                                lemma_key_transitive(
                                    pd, k as int,
                                    before[q as int].desc@, order_before[q as int],
                                    before[m - 1].desc@, order_before[m - 1],
                                );
                            }
                        } else if i < q {
                            assert(after[i] == before[i] && after[m] == before[m - 1]);
                            assert(desc_key_before(before[i].desc@, order_before[i], pd, k as int));
                            assert(desc_key_before(pd, k as int, before[q as int].desc@, order_before[q as int]));
                            lemma_key_transitive(
                                before[i].desc@, order_before[i],
                                pd, k as int,
                                before[q as int].desc@, order_before[q as int],
                            );
                            if m - 1 > q {
                                lemma_key_transitive(
                                    before[i].desc@, order_before[i],
                                    before[q as int].desc@, order_before[q as int],
                                    before[m - 1].desc@, order_before[m - 1],
                                );
                            }
                        } else {
                            assert(after[i] == before[i - 1] && after[m] == before[m - 1]);
                        }
                    }
                    assert forall|j: int| k <= j < all.len() && has_geo(#[trigger] all[j].1) implies exists|i: int|
                        0 <= i < order.len() && order[i] == j by {
                        if j == k {
                            assert(order[q as int] == j);
                        } else {
                            let i0 = choose|i: int| 0 <= i < order_before.len() && order_before[i] == j;
                            if i0 < q {
                                assert(order[i0] == j);
                            } else {
                                assert(order[i0 + 1] == j);
                            }
                        }
                    }
                    assert forall|i: int| 0 <= i < after.len() implies pop_from_raw(
                        #[trigger] after[i],
                        all[order[i]].0,
                        all[order[i]].1,
                    ) by {
                        if i < q {
                            assert(after[i] == before[i]);
                        } else if i > q {
                            assert(after[i] == before[i - 1]);
                        }
                    }
                    assert forall|i: int, m: int| 0 <= i < m < after.len() implies order[i] != order[m] by {
                        if i < q && m > q {
                            assert(order[m] == order_before[m - 1]);
                        }
                    }
                }
            },
        }
    }
    proof {
        assert(sorted_from_raw(pops@, all, order));
        if raw_codes_distinct(all) {
            assert forall|i: int, m: int| 0 <= i < m < pops@.len() implies (#[trigger] pops@[i]).code@
                != (#[trigger] pops@[m]).code@ by {
                assert(order[i] != order[m]);
                if order[i] < order[m] {
                    assert(all[order[i]].0@ != all[order[m]].0@);
                } else {
                    assert(all[order[m]].0@ != all[order[i]].0@);
                }
            }
        }
    }
    LoadedConfig { revision, source: String::from_str(source), live, pops }
}

} // verus!
