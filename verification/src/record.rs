//! Identity of the experiment's records: the names under which runs are
//! filed, the label hash that derived seeds are built from, and which
//! gateway a language-model endpoint belongs to.
use vstd::prelude::*;

use vstd::string::StringSliceAdditionalSpecFns;

use crate::text::{chars_of, find, find_in};

verus! {

/// The experiment's name in the run store (the binary's name too).
pub const EXPERIMENT: &'static str = "oasis";

/// The repository's stable identifier.
pub const REPO_ID: &'static str = "yang2024";

/// The field the runs belong to.
pub const DOMAIN: &'static str = "simulation";

/// The event kind of one cascade row.
pub const CASCADE_EVENT: &'static str = "x.yang2024.cascade";

/// The event kind of one anchor verdict.
pub const ANCHOR_EVENT: &'static str = "x.yang2024.anchor";

// ------------------------------------------------------------------------
// FNV-1a
// ------------------------------------------------------------------------

/// The 64-bit FNV offset basis.
pub const FNV_OFFSET: u64 = 0xcbf29ce484222325;

/// The 64-bit FNV prime.
pub const FNV_PRIME: u64 = 0x100000001b3;

/// One FNV-1a round: xor the byte in, then multiply modulo 2^64.
pub open spec fn fnv_step(h: u64, b: u8) -> u64 {
    vstd::wrapping::u64_specs::wrapping_mul(h ^ (b as u64), FNV_PRIME)
}

/// The 64-bit FNV-1a hash of a byte string.
pub open spec fn fnv1a(bytes: Seq<u8>) -> u64
    decreases bytes.len(),
{
    if bytes.len() == 0 {
        FNV_OFFSET
    } else {
        fnv_step(fnv1a(bytes.drop_last()), bytes.last())
    }
}

/// The FNV-1a hash of a byte slice.
pub fn fnv1a_bytes(bytes: &[u8]) -> (h: u64)
    ensures
        h == fnv1a(bytes@),
{
    let mut h: u64 = FNV_OFFSET;
    let mut i: usize = 0;
    while i < bytes.len()
        invariant
            0 <= i <= bytes@.len(),
            h == fnv1a(bytes@.take(i as int)),
        decreases bytes@.len() - i,
    {
        assert(bytes@.take(i + 1).drop_last() =~= bytes@.take(i as int));
        h = (h ^ (bytes[i] as u64)).wrapping_mul(FNV_PRIME);
        i = i + 1;
    }
    assert(bytes@.take(bytes@.len() as int) =~= bytes@);
    h
}

/// The hash of a label (FNV-1a over its UTF-8 bytes), from which derived
/// seeds are built.
pub fn label_hash(label: &str) -> (h: u64)
    ensures
        h == fnv1a(label.spec_bytes()),
{
    fnv1a_bytes(label.as_bytes())
}

// ------------------------------------------------------------------------
// Derived seeds
// ------------------------------------------------------------------------

/// The coordinates from which the seed of one trial of a `reproduce` cell
/// is derived: the platform's and the recommender's label hashes and the
/// trial's index.
pub fn repro_seed_path(platform: &str, recsys: &str, index: usize) -> (r: Vec<u64>)
    ensures
        r@ == seq![fnv1a(platform.spec_bytes()), fnv1a(recsys.spec_bytes()), index as u64],
{
    let mut r: Vec<u64> = Vec::new();
    r.push(label_hash(platform));
    r.push(label_hash(recsys));
    r.push(index as u64);
    r
}

/// The coordinates from which the seed of one trial of a sweep point is
/// derived: the platform's label hash, the agent count, the activation
/// rate in thousandths (truncated) and the trial's index.
pub fn sweep_seed_path(platform: &str, n_agents: usize, activation_milli: u64, index: usize) -> (r: Vec<u64>)
    ensures
        r@ == seq![fnv1a(platform.spec_bytes()), n_agents as u64, activation_milli, index as u64],
{
    let mut r: Vec<u64> = Vec::new();
    r.push(label_hash(platform));
    r.push(n_agents as u64);
    r.push(activation_milli);
    r.push(index as u64);
    r
}

// ------------------------------------------------------------------------
// Which gateway answered
// ------------------------------------------------------------------------

/// `needle` occurs somewhere in `hay`.
pub open spec fn contains(hay: Seq<char>, needle: Seq<char>) -> bool {
    find(hay, needle) is Some
}

/// The provider recorded for an endpoint: Ollama when the endpoint names
/// its listening number (11434) or its name, the mock when it says so,
/// OpenAI otherwise.
pub open spec fn provider_text(endpoint: Seq<char>) -> Seq<char> {
    if contains(endpoint, "11434"@) || contains(endpoint, "ollama"@) {
        "ollama"@
    } else if contains(endpoint, "mock"@) {
        "mock"@
    } else {
        "openai"@
    }
}

/// Whether `needle` occurs in `hay`.
fn occurs_in(hay: &Vec<char>, needle: &str) -> (r: bool)
    ensures
        r == contains(hay@, needle@),
{
    let n = chars_of(needle);
    find_in(hay, &n, 0).is_some()
}

/// The provider of the language-model endpoint that answered.
pub fn provider_of(endpoint: &str) -> (r: &'static str)
    ensures
        r@ == provider_text(endpoint@),
{
    let e = chars_of(endpoint);
    if occurs_in(&e, "11434") || occurs_in(&e, "ollama") {
        "ollama"
    } else if occurs_in(&e, "mock") {
        "mock"
    } else {
        "openai"
    }
}

} // verus!
