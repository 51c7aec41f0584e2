//! The status line texts that report on loading, refreshing and saving.

use vstd::prelude::*;

use crate::data::{LoadedConfig, allowed_total, relay_total, selectable_total};
use crate::text::{decimal, push_decimal};

verus! {

/// "Loaded revision R from SOURCE at TIME".
pub fn loaded_status(revision: u64, source: &str, time_text: &str) -> (s: String)
    ensures
        s@ == "Loaded revision "@ + decimal(revision as nat) + " from "@ + source@ + " at "@ + time_text@,
{
    let mut s = String::from_str("Loaded revision ");
    push_decimal(&mut s, revision);
    s.append(" from ");
    s.append(source);
    s.append(" at ");
    s.append(time_text);
    s
}

/// The status when neither the live configuration nor the cache could be read.
pub fn refresh_failure(live_error: &str, cache_error: &str) -> (s: String)
    ensures
        s@ == "Live refresh failed: "@ + live_error@ + ". Cache load failed: "@ + cache_error@,
{
    let mut s = String::from_str("Live refresh failed: ");
    s.append(live_error);
    s.append(". Cache load failed: ");
    s.append(cache_error);
    s
}

/// The status when the selection could not be saved.
pub fn save_failure(error: &str) -> (s: String)
    ensures
        s@ == "Failed to save allowed POPs: "@ + error@,
{
    let mut s = String::from_str("Failed to save allowed POPs: ");
    s.append(error);
    s
}

/// "N POPs, S selectable, A allowed, R relays".
pub fn config_summary(config: &LoadedConfig) -> (s: String)
    requires
        relay_total(config.pops@) <= usize::MAX,
    ensures
        s@ == decimal(config.pops@.len()) + " POPs, "@ + decimal(selectable_total(config.pops@)) + " selectable, "@
            + decimal(allowed_total(config.pops@)) + " allowed, "@ + decimal(relay_total(config.pops@)) + " relays"@,
{
    let mut s = String::new();
    push_decimal(&mut s, config.pops.len() as u64);
    s.append(" POPs, ");
    push_decimal(&mut s, config.selectable_count() as u64);
    s.append(" selectable, ");
    push_decimal(&mut s, config.allowed_count() as u64);
    s.append(" allowed, ");
    push_decimal(&mut s, config.relay_count() as u64);
    s.append(" relays");
    s
}

/// "A allowed, B blocked if applied".
pub fn apply_summary(config: &LoadedConfig) -> (s: String)
    ensures
        s@ == decimal(allowed_total(config.pops@)) + " allowed, "@ + decimal(
            (selectable_total(config.pops@) - allowed_total(config.pops@)) as nat,
        ) + " blocked if applied"@,
{
    let mut s = String::new();
    push_decimal(&mut s, config.allowed_count() as u64);
    s.append(" allowed, ");
    push_decimal(&mut s, config.blocked_count() as u64);
    s.append(" blocked if applied");
    s
}

} // verus!
