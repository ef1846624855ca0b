//! Ready-made queries for common infrastructure domains.
use vstd::prelude::*;
use crate::categories::{CS_AI, CS_CR, CS_DC, CS_NI, CS_OS, CS_SE, CS_SY};
use crate::query::{QueryBuilder, SearchQuery, strs, str_views, unicode_lowercase};

verus! {

/// `q` searches for `words` (lowercased) in `cats`, excludes nothing and has no
/// date range.
pub open spec fn preset_query(q: SearchQuery, words: Seq<&str>, cats: Seq<&str>) -> bool {
    &&& strs(q.keywords@) == str_views(words).map_values(|k: Seq<char>| unicode_lowercase(k))
    &&& strs(q.categories@) == str_views(cats)
    &&& q.exclude_keywords@.len() == 0
    &&& q.date_range is None
}

fn preset(words: &[&str], cats: &[&str]) -> (q: SearchQuery)
    ensures
        preset_query(q, words@, cats@),
{
    let b = QueryBuilder::new();
    assert(strs(b.current().keywords@) =~= Seq::<Seq<char>>::empty());
    assert(strs(b.current().categories@) =~= Seq::<Seq<char>>::empty());
    let b = b.keywords(words);
    let b = b.categories(cats);
    let q = b.build();
    assert(strs(q.keywords@) =~= str_views(words@).map_values(|k: Seq<char>| unicode_lowercase(k)));
    assert(strs(q.categories@) =~= str_views(cats@));
    q
}

/// Networking.
pub fn networking() -> (q: SearchQuery)
    ensures
        preset_query(
            q,
            seq![
                "networking", "network architecture", "internet protocol", "tcp/ip",
                "routing", "bandwidth", "latency", "throughput",
            ],
            seq![CS_NI],
        ),
{
    let words: [&str; 8] = [
        "networking", "network architecture", "internet protocol", "tcp/ip", "routing",
        "bandwidth", "latency", "throughput",
    ];
    let cats: [&str; 1] = [CS_NI];
    let q = preset(&words, &cats);
    assert(words@ =~= seq![
        "networking", "network architecture", "internet protocol", "tcp/ip", "routing",
        "bandwidth", "latency", "throughput",
    ]);
    assert(cats@ =~= seq![CS_NI]);
    q
}

/// Denial-of-service prevention.
pub fn ddos_prevention() -> (q: SearchQuery)
    ensures
        preset_query(
            q,
            seq![
                "ddos", "denial of service", "attack detection", "anomaly detection",
                "rate limiting", "traffic filtering", "intrusion detection",
                "network security",
            ],
            seq![CS_NI, CS_CR, CS_SY],
        ),
{
    let words: [&str; 8] = [
        "ddos", "denial of service", "attack detection", "anomaly detection",
        "rate limiting", "traffic filtering", "intrusion detection", "network security",
    ];
    let cats: [&str; 3] = [CS_NI, CS_CR, CS_SY];
    let q = preset(&words, &cats);
    assert(words@ =~= seq![
        "ddos", "denial of service", "attack detection", "anomaly detection",
        "rate limiting", "traffic filtering", "intrusion detection", "network security",
    ]);
    assert(cats@ =~= seq![CS_NI, CS_CR, CS_SY]);
    q
}

/// Security information and event management, and security orchestration.
pub fn siem_soar() -> (q: SearchQuery)
    ensures
        preset_query(
            q,
            seq![
                "siem", "security information", "event management", "soar",
                "security orchestration", "incident response", "threat detection",
                "log analysis", "security analytics",
            ],
            seq![CS_CR, CS_SY, CS_AI],
        ),
{
    let words: [&str; 9] = [
        "siem", "security information", "event management", "soar",
        "security orchestration", "incident response", "threat detection", "log analysis",
        "security analytics",
    ];
    let cats: [&str; 3] = [CS_CR, CS_SY, CS_AI];
    let q = preset(&words, &cats);
    assert(words@ =~= seq![
        "siem", "security information", "event management", "soar",
        "security orchestration", "incident response", "threat detection", "log analysis",
        "security analytics",
    ]);
    assert(cats@ =~= seq![CS_CR, CS_SY, CS_AI]);
    q
}

/// Virtualisation and hosting.
pub fn virtual_hosting() -> (q: SearchQuery)
    ensures
        preset_query(
            q,
            seq![
                "virtualization", "hypervisor", "container", "kubernetes",
                "resource allocation", "vm placement", "orchestration",
                "cloud infrastructure",
            ],
            seq![CS_DC, CS_OS, CS_SY],
        ),
{
    let words: [&str; 8] = [
        "virtualization", "hypervisor", "container", "kubernetes", "resource allocation",
        "vm placement", "orchestration", "cloud infrastructure",
    ];
    let cats: [&str; 3] = [CS_DC, CS_OS, CS_SY];
    let q = preset(&words, &cats);
    assert(words@ =~= seq![
        "virtualization", "hypervisor", "container", "kubernetes", "resource allocation",
        "vm placement", "orchestration", "cloud infrastructure",
    ]);
    assert(cats@ =~= seq![CS_DC, CS_OS, CS_SY]);
    q
}

/// Storage.
pub fn storage_optimization() -> (q: SearchQuery)
    ensures
        preset_query(
            q,
            seq![
                "storage", "distributed storage", "data replication", "caching",
                "deduplication", "compression", "tiered storage", "i/o optimization",
            ],
            seq![CS_DC, CS_SY, CS_OS],
        ),
{
    let words: [&str; 8] = [
        "storage", "distributed storage", "data replication", "caching", "deduplication",
        "compression", "tiered storage", "i/o optimization",
    ];
    let cats: [&str; 3] = [CS_DC, CS_SY, CS_OS];
    let q = preset(&words, &cats);
    assert(words@ =~= seq![
        "storage", "distributed storage", "data replication", "caching", "deduplication",
        "compression", "tiered storage", "i/o optimization",
    ]);
    assert(cats@ =~= seq![CS_DC, CS_SY, CS_OS]);
    q
}

/// Infrastructure performance.
pub fn infrastructure_optimization() -> (q: SearchQuery)
    ensures
        preset_query(
            q,
            seq![
                "optimization", "performance", "scalability", "resource efficiency",
                "bottleneck", "profiling", "monitoring", "tuning",
            ],
            seq![CS_DC, CS_SY, CS_OS, CS_SE],
        ),
{
    let words: [&str; 8] = [
        "optimization", "performance", "scalability", "resource efficiency", "bottleneck",
        "profiling", "monitoring", "tuning",
    ];
    let cats: [&str; 4] = [CS_DC, CS_SY, CS_OS, CS_SE];
    let q = preset(&words, &cats);
    assert(words@ =~= seq![
        "optimization", "performance", "scalability", "resource efficiency", "bottleneck",
        "profiling", "monitoring", "tuning",
    ]);
    assert(cats@ =~= seq![CS_DC, CS_SY, CS_OS, CS_SE]);
    q
}

/// Everything relevant to an infrastructure stack.
pub fn your_stack() -> (q: SearchQuery)
    ensures
        preset_query(
            q,
            seq![
                "networking", "ddos", "security", "virtualization", "storage",
                "optimization", "performance", "distributed", "cloud", "infrastructure",
                "orchestration", "monitoring",
            ],
            seq![CS_NI, CS_CR, CS_DC, CS_SY, CS_OS],
        ),
{
    let words: [&str; 12] = [
        "networking", "ddos", "security", "virtualization", "storage", "optimization",
        "performance", "distributed", "cloud", "infrastructure", "orchestration",
        "monitoring",
    ];
    let cats: [&str; 5] = [CS_NI, CS_CR, CS_DC, CS_SY, CS_OS];
    let q = preset(&words, &cats);
    assert(words@ =~= seq![
        "networking", "ddos", "security", "virtualization", "storage", "optimization",
        "performance", "distributed", "cloud", "infrastructure", "orchestration",
        "monitoring",
    ]);
    assert(cats@ =~= seq![CS_NI, CS_CR, CS_DC, CS_SY, CS_OS]);
    q
}

} // verus!
