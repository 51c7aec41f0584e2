//! The relay configuration the chooser works on: points of presence (POPs),
//! their relays, and the user's selection of allowed POPs.

use vstd::prelude::*;

use crate::codes::{CodeSet, string_views};
use crate::text::{contains_str, lowercase, occurs_in, to_lower, trim_text, trimmed};

verus! {

/// One relay of a POP: its IPv4 address (octets, most significant first) and
/// the inclusive UDP port range it serves.
#[derive(Clone, Copy, Debug)]
pub struct Relay {
    pub ipv4: [u8; 4],
    pub port_range: [u16; 2],
}

/// A point of presence. The geographic position is carried as the IEEE-754
/// bit patterns of longitude and latitude; this library never computes with it.
#[derive(Clone, Debug)]
pub struct Pop {
    pub code: String,
    pub desc: String,
    pub lon_bits: u64,
    pub lat_bits: u64,
    pub tier: u8,
    pub relays: Vec<Relay>,
    pub selected: bool,
}

/// A loaded relay configuration.
#[derive(Clone, Debug)]
pub struct LoadedConfig {
    pub revision: u64,
    pub source: String,
    pub live: bool,
    pub pops: Vec<Pop>,
}

/// Which tiers of POPs the list shows.
#[derive(Clone, Copy, Debug, PartialEq, Eq, Structural)]
pub enum TierFilter {
    All,
    ValvePrimary,
    ValveAny,
    Partner,
}

/// The POP has at least one public relay (only such POPs can be allowed).
pub open spec fn has_relays(p: Pop) -> bool {
    p.relays@.len() > 0
}

/// The POP is allowed: selected and with relays.
pub open spec fn is_allowed(p: Pop) -> bool {
    p.selected && has_relays(p)
}

/// Number of POPs that have relays.
pub open spec fn selectable_total(pops: Seq<Pop>) -> nat
    decreases pops.len(),
{
    if pops.len() == 0 {
        0
    } else {
        selectable_total(pops.drop_last()) + (if has_relays(pops.last()) {
            1nat
        } else {
            0nat
        })
    }
}

/// Number of allowed POPs.
pub open spec fn allowed_total(pops: Seq<Pop>) -> nat
    decreases pops.len(),
{
    if pops.len() == 0 {
        0
    } else {
        allowed_total(pops.drop_last()) + (if is_allowed(pops.last()) {
            1nat
        } else {
            0nat
        })
    }
}

/// Number of POPs with relays that are not selected: the POPs whose relays
/// the rules block.
pub open spec fn blocked_total(pops: Seq<Pop>) -> nat
    decreases pops.len(),
{
    if pops.len() == 0 {
        0
    } else {
        blocked_total(pops.drop_last()) + (if has_relays(pops.last()) && !pops.last().selected {
            1nat
        } else {
            0nat
        })
    }
}

/// The blocked count is the number of POPs with relays that are not selected.
pub proof fn lemma_blocked_count_counts_unselected(pops: Seq<Pop>)
    ensures
        selectable_total(pops) - allowed_total(pops) == blocked_total(pops),
    decreases pops.len(),
{
    if pops.len() > 0 {
        lemma_blocked_count_counts_unselected(pops.drop_last());
        lemma_allowed_le_selectable(pops.drop_last());
    }
}

/// Total number of relays of all POPs.
pub open spec fn relay_total(pops: Seq<Pop>) -> nat
    decreases pops.len(),
{
    if pops.len() == 0 {
        0
    } else {
        relay_total(pops.drop_last()) + pops.last().relays@.len()
    }
}

/// Every selected POP has relays.
pub open spec fn selection_consistent(pops: Seq<Pop>) -> bool {
    forall|i: int| 0 <= i < pops.len() && (#[trigger] pops[i]).selected ==> has_relays(pops[i])
}

/// The POPs with only their `selected` flags replaced, by position.
pub open spec fn reselect(pops: Seq<Pop>, sel: spec_fn(int, Pop) -> bool) -> Seq<Pop> {
    pops.map(|i: int, p: Pop| Pop { selected: sel(i, p), ..p })
}

/// The codes of the allowed POPs.
pub open spec fn allowed_code_set(pops: Seq<Pop>) -> Set<Seq<char>> {
    Set::new(|c: Seq<char>| exists|i: int| 0 <= i < pops.len() && is_allowed(pops[i]) && pops[i].code@ == c)
}

/// The codes of the POPs that have relays.
pub open spec fn selectable_code_set(pops: Seq<Pop>) -> Set<Seq<char>> {
    Set::new(|c: Seq<char>| exists|i: int| 0 <= i < pops.len() && has_relays(pops[i]) && pops[i].code@ == c)
}

/// There are never more allowed POPs than POPs with relays.
pub proof fn lemma_allowed_le_selectable(pops: Seq<Pop>)
    ensures
        allowed_total(pops) <= selectable_total(pops),
        selectable_total(pops) <= pops.len(),
    decreases pops.len(),
{
    if pops.len() > 0 {
        lemma_allowed_le_selectable(pops.drop_last());
    }
}

fn count_pops(pops: &Vec<Pop>, allowed_only: bool) -> (n: usize)
    ensures
        allowed_only ==> n == allowed_total(pops@),
        !allowed_only ==> n == selectable_total(pops@),
{
    let mut n: usize = 0;
    let mut i: usize = 0;
    while i < pops.len()
        invariant
            i <= pops@.len(),
            allowed_only ==> n == allowed_total(pops@.take(i as int)),
            !allowed_only ==> n == selectable_total(pops@.take(i as int)),
            n <= i,
        decreases pops@.len() - i,
    {
        proof {
            assert(pops@.take(i + 1).drop_last() =~= pops@.take(i as int));
        }
        if (!allowed_only || pops[i].selected) && pops[i].relays.len() > 0 {
            n = n + 1;
        }
        i = i + 1;
    }
    assert(pops@.take(pops@.len() as int) =~= pops@);
    n
}

impl LoadedConfig {
    /// Number of POPs that have at least one relay.
    pub fn selectable_count(&self) -> (n: usize)
        ensures
            n == selectable_total(self.pops@),
    {
        count_pops(&self.pops, false)
    }

    /// Number of POPs that are selected and have at least one relay.
    pub fn allowed_count(&self) -> (n: usize)
        ensures
            n == allowed_total(self.pops@),
    {
        count_pops(&self.pops, true)
    }

    /// Number of POPs with relays that are not allowed, i.e. whose relays are
    /// blocked when the rules are applied. The subtraction never saturates.
    pub fn blocked_count(&self) -> (n: usize)
        ensures
            n == selectable_total(self.pops@) - allowed_total(self.pops@),
    {
        let s = self.selectable_count();
        let a = self.allowed_count();
        proof {
            lemma_allowed_le_selectable(self.pops@);
        }
        s.saturating_sub(a)
    }

    /// Total number of relays over all POPs.
    pub fn relay_count(&self) -> (n: usize)
        requires
            relay_total(self.pops@) <= usize::MAX,
        ensures
            n == relay_total(self.pops@),
    {
        let mut n: usize = 0;
        let mut i: usize = 0;
        while i < self.pops.len()
            invariant
                i <= self.pops@.len(),
                n == relay_total(self.pops@.take(i as int)),
                relay_total(self.pops@) <= usize::MAX,
            decreases self.pops@.len() - i,
        {
            proof {
                assert(self.pops@.take(i + 1).drop_last() =~= self.pops@.take(i as int));
                lemma_relay_total_prefix(self.pops@, i + 1);
            }
            n = n + self.pops[i].relays.len();
            i = i + 1;
        }
        assert(self.pops@.take(self.pops@.len() as int) =~= self.pops@);
        n
    }
}

proof fn lemma_relay_total_prefix(pops: Seq<Pop>, k: int)
    requires
        0 <= k <= pops.len(),
    ensures
        relay_total(pops.take(k)) <= relay_total(pops),
    decreases pops.len(),
{
    if k < pops.len() {
        assert(pops.drop_last().take(k) =~= pops.take(k));
        lemma_relay_total_prefix(pops.drop_last(), k);
    } else {
        assert(pops.take(k) =~= pops);
    }
}


/// Replaces each POP's `selected` flag by the flag at the same position.
fn set_selection(pops: &mut Vec<Pop>, flags: &Vec<bool>)
    requires
        flags@.len() == old(pops)@.len(),
    ensures
        final(pops)@ == reselect(old(pops)@, |i: int, p: Pop| flags@[i]),
{
    let ghost before = pops@;
    let n = pops.len();
    let mut i: usize = 0;
    while i < n
        invariant
            n == pops@.len(),
            n == before.len(),
            n == flags@.len(),
            i <= n,
            forall|k: int| 0 <= k < i ==> pops@[k] == (Pop { selected: flags@[k], ..before[k] }),
            forall|k: int| i <= k < n ==> pops@[k] == before[k],
        decreases n - i,
    {
        pops[i].selected = flags[i];
        i = i + 1;
    }
    assert(pops@ =~= reselect(before, |i: int, p: Pop| flags@[i]));
}

/// The selection after `apply_allowed_codes`: a POP is selected exactly when
/// its code is allowed and it has relays.
pub open spec fn selection_from_codes(pops: Seq<Pop>, allowed: Set<Seq<char>>) -> Seq<Pop> {
    reselect(pops, |i: int, p: Pop| allowed.contains(p.code@) && has_relays(p))
}

/// Selects exactly the POPs whose code is in `allowed` and that have relays.
pub fn apply_allowed_codes(config: &mut LoadedConfig, allowed: &CodeSet)
    ensures
        final(config).pops@ == selection_from_codes(old(config).pops@, allowed.set()),
        final(config).revision == old(config).revision,
        final(config).source == old(config).source,
        final(config).live == old(config).live,
{
    let n = config.pops.len();
    let mut flags: Vec<bool> = Vec::new();
    let mut i: usize = 0;
    while i < n
        invariant
            n == config.pops@.len(),
            i <= n,
            flags@.len() == i,
            forall|k: int| 0 <= k < i ==> flags@[k] == (allowed.set().contains(config.pops@[k].code@)
                && has_relays(config.pops@[k])),
        decreases n - i,
    {
        let b = allowed.contains(config.pops[i].code.as_str()) && config.pops[i].relays.len() > 0;
        flags.push(b);
        i = i + 1;
    }
    let ghost before = config.pops@;
    set_selection(&mut config.pops, &flags);
    assert(config.pops@ =~= selection_from_codes(before, allowed.set()));
}

/// Selects every POP that has relays ("Allow all").
pub fn allow_all(config: &mut LoadedConfig)
    ensures
        final(config).pops@ == reselect(old(config).pops@, |i: int, p: Pop| has_relays(p)),
        final(config).revision == old(config).revision,
        final(config).source == old(config).source,
        final(config).live == old(config).live,
{
    let n = config.pops.len();
    let mut flags: Vec<bool> = Vec::new();
    let mut i: usize = 0;
    while i < n
        invariant
            n == config.pops@.len(),
            i <= n,
            flags@.len() == i,
            forall|k: int| 0 <= k < i ==> flags@[k] == has_relays(config.pops@[k]),
        decreases n - i,
    {
        flags.push(config.pops[i].relays.len() > 0);
        i = i + 1;
    }
    let ghost before = config.pops@;
    set_selection(&mut config.pops, &flags);
    assert(config.pops@ =~= reselect(before, |i: int, p: Pop| has_relays(p)));
}

/// Deselects every POP ("Block all").
pub fn block_all(config: &mut LoadedConfig)
    ensures
        final(config).pops@ == reselect(old(config).pops@, |i: int, p: Pop| false),
        final(config).revision == old(config).revision,
        final(config).source == old(config).source,
        final(config).live == old(config).live,
{
    let n = config.pops.len();
    let mut flags: Vec<bool> = Vec::new();
    let mut i: usize = 0;
    while i < n
        invariant
            n == config.pops@.len(),
            i <= n,
            flags@.len() == i,
            forall|k: int| 0 <= k < i ==> !flags@[k],
        decreases n - i,
    {
        flags.push(false);
        i = i + 1;
    }
    let ghost before = config.pops@;
    set_selection(&mut config.pops, &flags);
    assert(config.pops@ =~= reselect(before, |i: int, p: Pop| false));
}

/// Selects exactly the POPs that lie in a region (`in_region`, one flag per
/// POP, decided by the caller from the coordinates) and have relays.
pub fn allow_region(config: &mut LoadedConfig, in_region: &Vec<bool>)
    requires
        in_region@.len() == old(config).pops@.len(),
    ensures
        final(config).pops@ == reselect(old(config).pops@, |i: int, p: Pop| in_region@[i] && has_relays(p)),
        final(config).revision == old(config).revision,
        final(config).source == old(config).source,
        final(config).live == old(config).live,
{
    let n = config.pops.len();
    let mut flags: Vec<bool> = Vec::new();
    let mut i: usize = 0;
    while i < n
        invariant
            n == config.pops@.len(),
            n == in_region@.len(),
            i <= n,
            flags@.len() == i,
            forall|k: int| 0 <= k < i ==> flags@[k] == (in_region@[k] && has_relays(config.pops@[k])),
        decreases n - i,
    {
        flags.push(in_region[i] && config.pops[i].relays.len() > 0);
        i = i + 1;
    }
    let ghost before = config.pops@;
    set_selection(&mut config.pops, &flags);
    assert(config.pops@ =~= reselect(before, |i: int, p: Pop| in_region@[i] && has_relays(p)));
}

/// Index of the first POP with the given code.
pub open spec fn first_with_code(pops: Seq<Pop>, code: Seq<char>, k: int) -> bool {
    0 <= k < pops.len() && pops[k].code@ == code && forall|j: int| 0 <= j < k ==> pops[j].code@ != code
}

/// Flips the selection of the first POP with the given code (a click on the
/// map); nothing changes if no POP has that code.
pub fn toggle_pop(config: &mut LoadedConfig, code: &str)
    ensures
        final(config).revision == old(config).revision,
        final(config).source == old(config).source,
        final(config).live == old(config).live,
        forall|k: int| first_with_code(old(config).pops@, code@, k) ==> final(config).pops@ == old(config).pops@.update(
            k,
            Pop { selected: !old(config).pops@[k].selected, ..old(config).pops@[k] },
        ),
        (forall|k: int| 0 <= k < old(config).pops@.len() ==> old(config).pops@[k].code@ != code@) ==> final(config).pops@ == old(config).pops@,
{
    let n = config.pops.len();
    let mut i: usize = 0;
    while i < n
        invariant
            n == config.pops@.len(),
            i <= n,
            forall|j: int| 0 <= j < i ==> config.pops@[j].code@ != code@,
            config.pops@ == old(config).pops@,
            config.revision == old(config).revision,
            config.source == old(config).source,
            config.live == old(config).live,
        decreases n - i,
    {
        if crate::text::str_eq(config.pops[i].code.as_str(), code) {
            let ghost before = config.pops@;
            let b = !config.pops[i].selected;
            config.pops[i].selected = b;
            proof {
                assert forall|k: int| first_with_code(before, code@, k) implies k == i by {
                    if k < i {
                    } else if k > i {
                        assert(before[i as int].code@ == code@);
                    }
                }
                assert(config.pops@ =~= before.update(i as int, Pop { selected: b, ..before[i as int] }));
            }
            return;
        }
        i = i + 1;
    }
}

/// Flips the selection of the POP at `index` when it has relays (a click on
/// its row in the list); POPs without relays cannot be selected.
pub fn toggle_selectable(config: &mut LoadedConfig, index: usize)
    requires
        index < old(config).pops@.len(),
    ensures
        final(config).revision == old(config).revision,
        final(config).source == old(config).source,
        final(config).live == old(config).live,
        has_relays(old(config).pops@[index as int]) ==> final(config).pops@ == old(config).pops@.update(
            index as int,
            Pop { selected: !old(config).pops@[index as int].selected, ..old(config).pops@[index as int] },
        ),
        !has_relays(old(config).pops@[index as int]) ==> final(config).pops@ == old(config).pops@,
{
    if config.pops[index].relays.len() > 0 {
        let ghost before = config.pops@;
        let b = !config.pops[index].selected;
        config.pops[index].selected = b;
        assert(config.pops@ =~= before.update(index as int, Pop { selected: b, ..before[index as int] }));
    }
}

/// Every way of changing the selection keeps it consistent (only POPs with
/// relays are selected): applying saved codes, allowing all, blocking all,
/// allowing a region, and toggling a POP in the list.
pub proof fn lemma_selection_stays_consistent(
    pops: Seq<Pop>,
    allowed: Set<Seq<char>>,
    in_region: Seq<bool>,
    index: int,
)
    requires
        selection_consistent(pops),
        0 <= index < pops.len(),
    ensures
        selection_consistent(selection_from_codes(pops, allowed)),
        selection_consistent(reselect(pops, |i: int, p: Pop| has_relays(p))),
        selection_consistent(reselect(pops, |i: int, p: Pop| false)),
        selection_consistent(reselect(pops, |i: int, p: Pop| in_region[i] && has_relays(p))),
        has_relays(pops[index]) ==> selection_consistent(
            pops.update(index, Pop { selected: !pops[index].selected, ..pops[index] }),
        ),
{
}


/// The codes of the allowed POPs, each once (what is saved as the selection).
pub fn allowed_codes(config: &LoadedConfig) -> (s: CodeSet)
    ensures
        s.set() == allowed_code_set(config.pops@),
{
    let n = config.pops.len();
    let mut codes: Vec<String> = Vec::new();
    let mut i: usize = 0;
    while i < n
        invariant
            n == config.pops@.len(),
            i <= n,
            string_views(codes@).to_set() == allowed_code_set(config.pops@.take(i as int)),
        decreases n - i,
    {
        let ghost before = codes@;
        if config.pops[i].selected && config.pops[i].relays.len() > 0 {
            codes.push(config.pops[i].code.clone());
            proof {
                before.lemma_push_map_commute(|s: String| s@, config.pops@[i as int].code);
                string_views(before).lemma_push_to_set_commute(config.pops@[i as int].code@);
            }
        }
        proof {
            let p = config.pops@.take(i + 1);
            let q = config.pops@.take(i as int);
            assert forall|c: Seq<char>| #[trigger] allowed_code_set(p).contains(c) == (
                allowed_code_set(q).contains(c) || (is_allowed(config.pops@[i as int])
                    && config.pops@[i as int].code@ == c)) by {
                if allowed_code_set(p).contains(c) {
                    let k = choose|k: int| 0 <= k < p.len() && is_allowed(p[k]) && p[k].code@ == c;
                    if k < i {
                        assert(q[k] == p[k]);
                    }
                }
                if allowed_code_set(q).contains(c) {
                    let k = choose|k: int| 0 <= k < q.len() && is_allowed(q[k]) && q[k].code@ == c;
                    assert(p[k] == q[k]);
                }
                if is_allowed(config.pops@[i as int]) && config.pops@[i as int].code@ == c {
                    assert(p[i as int] == config.pops@[i as int]);
                }
            }
            assert(string_views(codes@).to_set() =~= allowed_code_set(p));
        }
        i = i + 1;
    }
    assert(config.pops@.take(n as int) =~= config.pops@);
    CodeSet::from_codes(codes)
}

/// Saving the allowed codes and applying them again restores exactly the
/// codes that were saved and that belong to POPs with relays.
pub proof fn lemma_restore_selection(pops: Seq<Pop>, saved: Set<Seq<char>>)
    ensures
        allowed_code_set(selection_from_codes(pops, saved)) == saved.intersect(selectable_code_set(pops)),
{
    let after = selection_from_codes(pops, saved);
    assert forall|c: Seq<char>| allowed_code_set(after).contains(c) == saved.intersect(
        selectable_code_set(pops),
    ).contains(c) by {
        if allowed_code_set(after).contains(c) {
            let k = choose|k: int| 0 <= k < after.len() && is_allowed(after[k]) && after[k].code@ == c;
            assert(has_relays(pops[k]) && pops[k].code@ == c);
        }
        if saved.intersect(selectable_code_set(pops)).contains(c) {
            let k = choose|k: int| 0 <= k < pops.len() && has_relays(pops[k]) && pops[k].code@ == c;
            assert(is_allowed(after[k]) && after[k].code@ == c);
        }
    }
    assert(allowed_code_set(after) =~= saved.intersect(selectable_code_set(pops)));
}

/// No two POPs share a code.
pub open spec fn codes_distinct(pops: Seq<Pop>) -> bool {
    forall|i: int, j: int| 0 <= i < j < pops.len() ==> (#[trigger] pops[i]).code@ != (#[trigger] pops[j]).code@
}

/// With distinct codes and a consistent selection, applying the saved allowed
/// codes gives back the very same POPs.
pub proof fn lemma_saved_selection_round_trip(pops: Seq<Pop>)
    requires
        codes_distinct(pops),
        selection_consistent(pops),
    ensures
        selection_from_codes(pops, allowed_code_set(pops)) == pops,
{
    let after = selection_from_codes(pops, allowed_code_set(pops));
    assert forall|i: int| 0 <= i < pops.len() implies after[i] == pops[i] by {
        if allowed_code_set(pops).contains(pops[i].code@) {
            let k = choose|k: int| 0 <= k < pops.len() && is_allowed(pops[k]) && pops[k].code@ == pops[i].code@;
            if k != i {
                if k < i {
                    assert(pops[k].code@ != pops[i].code@);
                } else {
                    assert(pops[i].code@ != pops[k].code@);
                }
            }
        } else {
            if is_allowed(pops[i]) {
                assert(allowed_code_set(pops).contains(pops[i].code@));
            }
        }
    }
    assert(after =~= pops);
}


/// Whether a tier filter shows POPs of the given tier.
pub open spec fn tier_admits(f: TierFilter, tier: u8) -> bool {
    match f {
        TierFilter::All => true,
        TierFilter::ValvePrimary => tier == 0,
        TierFilter::ValveAny => tier <= 1,
        TierFilter::Partner => tier > 1,
    }
}

/// Whether a tier filter shows POPs of the given tier.
pub fn tier_matches(f: TierFilter, tier: u8) -> (b: bool)
    ensures
        b == tier_admits(f, tier),
{
    match f {
        TierFilter::All => true,
        TierFilter::ValvePrimary => tier == 0,
        TierFilter::ValveAny => tier <= 1,
        TierFilter::Partner => tier > 1,
    }
}

/// Whether the list shows a POP: it has relays or empty POPs are shown, its
/// tier passes the filter, and the needle (already trimmed and lower-cased) is
/// empty or occurs in the lower-cased code or description.
pub open spec fn pop_listed(p: Pop, needle: Seq<char>, f: TierFilter, show_empty: bool) -> bool {
    &&& show_empty || has_relays(p)
    &&& tier_admits(f, p.tier)
    &&& needle.len() == 0 || occurs_in(lowercase(p.code@), needle) || occurs_in(lowercase(p.desc@), needle)
}

/// The tier filters of the list: "All" shows every tier, "Valve primary"
/// exactly tier 0, "Valve" exactly tiers 0 and 1 (so every POP that "Valve
/// primary" shows), and "Partner" exactly the tiers that "Valve" leaves out.
pub proof fn lemma_tier_filters(tier: u8)
    ensures
        tier_admits(TierFilter::All, tier),
        tier_admits(TierFilter::ValvePrimary, tier) <==> tier == 0,
        tier_admits(TierFilter::ValveAny, tier) <==> tier <= 1,
        tier_admits(TierFilter::ValvePrimary, tier) ==> tier_admits(TierFilter::ValveAny, tier),
        tier_admits(TierFilter::Partner, tier) <==> !tier_admits(TierFilter::ValveAny, tier),
{
}

proof fn lemma_listed_below(pops: Seq<Pop>, n: int, needle: Seq<char>, f: TierFilter, show_empty: bool)
    requires
        0 <= n <= pops.len(),
        pops.len() <= usize::MAX,
    ensures
        forall|k: int| 0 <= k < listed_indices(pops, n, needle, f, show_empty).len()
            ==> #[trigger] listed_indices(pops, n, needle, f, show_empty)[k] < n,
        forall|k: int, l: int| 0 <= k < l < listed_indices(pops, n, needle, f, show_empty).len()
            ==> #[trigger] listed_indices(pops, n, needle, f, show_empty)[k] < #[trigger] listed_indices(
            pops,
            n,
            needle,
            f,
            show_empty,
        )[l],
        forall|i: int| 0 <= i < pops.len() ==> (listed_indices(pops, n, needle, f, show_empty).contains(i as usize)
            <==> (i < n && #[trigger] pop_listed(pops[i], needle, f, show_empty))),
    decreases n,
{
    if n > 0 {
        lemma_listed_below(pops, n - 1, needle, f, show_empty);
        let before = listed_indices(pops, n - 1, needle, f, show_empty);
        let now = listed_indices(pops, n, needle, f, show_empty);
        assert forall|i: int| 0 <= i < pops.len() implies (now.contains(i as usize) <==> (i < n && pop_listed(
            pops[i],
            needle,
            f,
            show_empty,
        ))) by {
            if now.contains(i as usize) {
                let k = choose|k: int| 0 <= k < now.len() && now[k] == i as usize;
                if k < before.len() {
                    assert(before[k] == now[k]);
                    assert(before.contains(i as usize));
                }
            }
            if i < n - 1 && pop_listed(pops[i], needle, f, show_empty) {
                let k = choose|k: int| 0 <= k < before.len() && before[k] == i as usize;
                if pop_listed(pops[n - 1], needle, f, show_empty) {
                    assert(now[k] == i as usize);
                }
            }
            if i == n - 1 && pop_listed(pops[i], needle, f, show_empty) {
                assert(now[now.len() - 1] == i as usize);
            }
        }
    }
}

/// What the search lists, for any query (trimmed and lower-cased into the
/// needle), tier filter and relay switch: a POP that passes the relay switch
/// and the tier filter is listed when the needle is empty, when it occurs in
/// the POP's lower-cased code, and when it occurs in its lower-cased
/// description; nothing else is listed; and the list holds positions of the
/// configuration in ascending order.
pub proof fn lemma_search_lists(pops: Seq<Pop>, query: Seq<char>, f: TierFilter, show_empty: bool, i: int)
    requires
        0 <= i < pops.len(),
        pops.len() <= usize::MAX,
    ensures
        ({
            let needle = query_needle(query);
            let listed = listed_indices(pops, pops.len() as int, needle, f, show_empty);
            let passes = (show_empty || pops[i].relays@.len() > 0) && tier_admits(f, pops[i].tier);
            &&& passes && needle.len() == 0 ==> listed.contains(i as usize)
            &&& passes && occurs_in(lowercase(pops[i].code@), needle) ==> listed.contains(i as usize)
            &&& passes && occurs_in(lowercase(pops[i].desc@), needle) ==> listed.contains(i as usize)
            &&& listed.contains(i as usize) ==> passes && (needle.len() == 0 || occurs_in(lowercase(pops[i].code@), needle)
                || occurs_in(lowercase(pops[i].desc@), needle))
            &&& forall|k: int, l: int| 0 <= k < l < listed.len() ==> #[trigger] listed[k] < #[trigger] listed[l]
            &&& forall|k: int| 0 <= k < listed.len() ==> #[trigger] listed[k] < pops.len()
        }),
{
    let needle = query_needle(query);
    let n = pops.len() as int;
    lemma_listed_below(pops, n, needle, f, show_empty);
    assert(listed_indices(pops, n, needle, f, show_empty).contains(i as usize) <==> pop_listed(pops[i], needle, f, show_empty));
}

/// The tier filters nest in the list as they do on tiers: every POP that the
/// "Valve primary" list shows is in the "Valve" list, and the "Valve" and
/// "Partner" lists together make up the "All" list.
pub proof fn lemma_tier_lists_nest(pops: Seq<Pop>, needle: Seq<char>, show_empty: bool, i: int)
    requires
        0 <= i < pops.len(),
        pops.len() <= usize::MAX,
    ensures
        listed_indices(pops, pops.len() as int, needle, TierFilter::ValvePrimary, show_empty).contains(i as usize)
            ==> listed_indices(pops, pops.len() as int, needle, TierFilter::ValveAny, show_empty).contains(i as usize),
        listed_indices(pops, pops.len() as int, needle, TierFilter::All, show_empty).contains(i as usize) <==> (
        listed_indices(pops, pops.len() as int, needle, TierFilter::ValveAny, show_empty).contains(i as usize)
            || listed_indices(pops, pops.len() as int, needle, TierFilter::Partner, show_empty).contains(i as usize)),
{
    let n = pops.len() as int;
    lemma_listed_below(pops, n, needle, TierFilter::ValvePrimary, show_empty);
    lemma_listed_below(pops, n, needle, TierFilter::ValveAny, show_empty);
    lemma_listed_below(pops, n, needle, TierFilter::Partner, show_empty);
    lemma_listed_below(pops, n, needle, TierFilter::All, show_empty);
    lemma_tier_filters(pops[i].tier);
    assert(listed_indices(pops, n, needle, TierFilter::ValvePrimary, show_empty).contains(i as usize) <==> pop_listed(pops[i], needle, TierFilter::ValvePrimary, show_empty));
    assert(listed_indices(pops, n, needle, TierFilter::ValveAny, show_empty).contains(i as usize) <==> pop_listed(pops[i], needle, TierFilter::ValveAny, show_empty));
    assert(listed_indices(pops, n, needle, TierFilter::Partner, show_empty).contains(i as usize) <==> pop_listed(pops[i], needle, TierFilter::Partner, show_empty));
    assert(listed_indices(pops, n, needle, TierFilter::All, show_empty).contains(i as usize) <==> pop_listed(pops[i], needle, TierFilter::All, show_empty));
}

/// Whether a search needle matches a POP, given its lower-cased code and
/// description: an empty needle matches everything, otherwise it must occur
/// in one of them.
pub fn text_matches(needle: &str, code_lower: &str, desc_lower: &str) -> (b: bool)
    ensures
        b == (needle@.len() == 0 || occurs_in(code_lower@, needle@) || occurs_in(desc_lower@, needle@)),
{
    needle.is_empty() || contains_str(code_lower, needle) || contains_str(desc_lower, needle)
}

/// The ascending indices below `n` of the POPs that the list shows.
pub open spec fn listed_indices(pops: Seq<Pop>, n: int, needle: Seq<char>, f: TierFilter, show_empty: bool) -> Seq<usize>
    decreases n,
{
    if n <= 0 {
        Seq::empty()
    } else if pop_listed(pops[n - 1], needle, f, show_empty) {
        listed_indices(pops, n - 1, needle, f, show_empty).push((n - 1) as usize)
    } else {
        listed_indices(pops, n - 1, needle, f, show_empty)
    }
}

/// The needle that a search query stands for: trimmed and lower-cased.
pub open spec fn query_needle(query: Seq<char>) -> Seq<char> {
    lowercase(trimmed(query))
}

/// Indices of the POPs that the list shows for a query, tier filter and the
/// "show POPs without relays" switch; empty when nothing is loaded.
pub fn filtered_indices(
    config: Option<&LoadedConfig>,
    query: &str,
    tier_filter: TierFilter,
    show_empty_pops: bool,
) -> (r: Vec<usize>)
    ensures
        config is None ==> r@.len() == 0,
        config matches Some(c) ==> r@ == listed_indices(
            c.pops@,
            c.pops@.len() as int,
            query_needle(query@),
            tier_filter,
            show_empty_pops,
        ),
{
    let config = match config {
        None => {
            return Vec::new();
        },
        Some(c) => c,
    };
    let trimmed_query = trim_text(query);
    let needle = to_lower(trimmed_query);
    let ghost nd = query_needle(query@);
    assert(needle@ == nd);
    let n = config.pops.len();
    let mut r: Vec<usize> = Vec::new();
    let mut i: usize = 0;
    while i < n
        invariant
            n == config.pops@.len(),
            i <= n,
            needle@ == nd,
            r@ == listed_indices(config.pops@, i as int, nd, tier_filter, show_empty_pops),
        decreases n - i,
    {
        let pop = &config.pops[i];
        let mut listed = (show_empty_pops || pop.relays.len() > 0) && tier_matches(tier_filter, pop.tier);
        if listed && !needle.as_str().is_empty() {
            let code_lower = to_lower(pop.code.as_str());
            let desc_lower = to_lower(pop.desc.as_str());
            listed = text_matches(needle.as_str(), code_lower.as_str(), desc_lower.as_str());
        }
        if listed {
            r.push(i);
        }
        i = i + 1;
    }
    r
}

} // verus!
