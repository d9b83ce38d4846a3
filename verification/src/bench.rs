//! Benchmark plumbing with integer content: the null models' random
//! stream, the street-set rules for reference fabric imports, and the
//! street graph's records.

use vstd::prelude::*;
use vstd::wrapping::u64_specs;

use crate::seed::{lemma_mul_inverse, lemma_splitmix64_injective, spec_splitmix64, splitmix64, word_span};
use crate::text::str_eq;

verus! {

/// SplitMix64 stream: each draw advances the state by the golden gamma
/// and mixes it.
pub struct Rng(u64);

impl View for Rng {
    type V = u64;

    /// The stream state.
    closed spec fn view(&self) -> u64 {
        self.0
    }
}

impl Rng {
    pub fn new(seed_v: u64) -> (r: Rng)
        ensures
            r@ == seed_v,
    {
        Rng(seed_v)
    }

    pub fn next_u64(&mut self) -> (r: u64)
        ensures
            final(self)@ == u64_specs::wrapping_add(old(self)@, 0x9E37_79B9_7F4A_7C15u64),
            r == spec_splitmix64(final(self)@),
    {
        self.0 = self.0.wrapping_add(0x9E37_79B9_7F4A_7C15);
        splitmix64(self.0)
    }
}

/// The stream state after `i` draws from a stream seeded with `seed`.
pub open spec fn stream_state(seed: u64, i: nat) -> u64 {
    ((seed as int + i * 0x9E37_79B9_7F4A_7C15) % word_span()) as u64
}

/// A draw advances the stream state by one step.
pub proof fn lemma_stream_step(seed: u64, i: nat)
    ensures
        stream_state(seed, 0) == seed,
        u64_specs::wrapping_add(stream_state(seed, i), 0x9E37_79B9_7F4A_7C15u64) == stream_state(seed, i + 1),
{
    let m = word_span();
    let g = 0x9E37_79B9_7F4A_7C15int;
    vstd::arithmetic::div_mod::lemma_small_mod(seed as nat, m as nat);
    let a = seed as int + i * g;
    vstd::arithmetic::div_mod::lemma_add_mod_noop(a, g, m);
    vstd::arithmetic::div_mod::lemma_small_mod(g as nat, m as nat);
    vstd::arithmetic::div_mod::lemma_mod_bound(a, m);
    assert(a + g == seed as int + (i + 1) * g) by (nonlinear_arith)
        requires
            a == seed as int + i * g,
    ;
    let s = a % m;
    if s + g < m {
        vstd::arithmetic::div_mod::lemma_small_mod((s + g) as nat, m as nat);
    } else {
        vstd::arithmetic::div_mod::lemma_mod_add_multiples_vanish(s + g - m, m);
        vstd::arithmetic::div_mod::lemma_small_mod((s + g - m) as nat, m as nat);
    }
}

/// Within its period of 2^64 draws, a stream never repeats an output:
/// the state steps by an odd constant and SplitMix64 is one-to-one.
pub proof fn lemma_stream_distinct(seed: u64, i: nat, j: nat)
    requires
        1 <= i < j <= word_span(),
    ensures
        spec_splitmix64(stream_state(seed, i)) != spec_splitmix64(stream_state(seed, j)),
{
    let m = word_span();
    let g = 0x9E37_79B9_7F4A_7C15int;
    lemma_splitmix64_injective(stream_state(seed, i), stream_state(seed, j));
    if stream_state(seed, i) == stream_state(seed, j) {
        let a = seed as int + i * g;
        let d = (j - i) as int;
        let b = d * g;
        assert(seed as int + j * g == a + b) by (nonlinear_arith)
            requires
                a == seed as int + i * g,
                d == j - i,
                b == d * g,
        ;
        vstd::arithmetic::div_mod::lemma_mod_bound(a, m);
        vstd::arithmetic::div_mod::lemma_mod_bound(a + b, m);
        assert(a % m == (a + b) % m);
        vstd::arithmetic::div_mod::lemma_add_mod_noop(a, b, m);
        vstd::arithmetic::div_mod::lemma_mod_bound(b, m);
        let r = b % m;
        let sa = a % m;
        if r != 0 {
            if sa + r < m {
                vstd::arithmetic::div_mod::lemma_small_mod((sa + r) as nat, m as nat);
            } else {
                vstd::arithmetic::div_mod::lemma_mod_add_multiples_vanish(sa + r - m, m);
                vstd::arithmetic::div_mod::lemma_small_mod((sa + r - m) as nat, m as nat);
            }
        }
        assert(r == 0);
        lemma_mul_inverse(d, g, 0xf1de83e19937733d, 10771413168148108919);
        assert(0int * 0xf1de83e19937733d % m == 0);
    }
}

/// Coarse street class carried through import and rendering; it styles
/// renders and never changes a number.
#[derive(Clone, Copy, PartialEq, Eq, Debug)]
pub enum Class {
    Corridor,
    Street,
    Lane,
}

/// A street-graph edge between two node indices.
pub struct Edge {
    pub a: usize,
    pub b: usize,
    pub class: Class,
}

/// Which street set an import carries.
#[derive(Clone, Copy, PartialEq, Eq, Debug)]
pub enum StreetSet {
    /// The carriageway set: drivable highway kinds and their links.
    Carriageway,
    /// The carriageway set plus footways, paths, steps and cycleways.
    AllWays,
}

/// `highway` values of the carriageway set.
pub open spec fn is_carriageway_kind(k: Seq<char>) -> bool {
    k == "motorway"@ || k == "motorway_link"@ || k == "trunk"@ || k == "trunk_link"@ || k
        == "primary"@ || k == "primary_link"@ || k == "secondary"@ || k == "secondary_link"@ || k
        == "tertiary"@ || k == "tertiary_link"@ || k == "unclassified"@ || k == "residential"@ || k
        == "living_street"@ || k == "service"@ || k == "pedestrian"@
}

/// `highway` values that only the all-ways set adds.
pub open spec fn is_path_kind(k: Seq<char>) -> bool {
    k == "footway"@ || k == "path"@ || k == "steps"@ || k == "cycleway"@
}

/// Whether `set` keeps ways of `highway` kind `k`.
pub open spec fn set_keeps(set: StreetSet, k: Seq<char>) -> bool {
    is_carriageway_kind(k) || (set == StreetSet::AllWays && is_path_kind(k))
}

fn carriageway_kind(kind: &str) -> (r: bool)
    ensures
        r == is_carriageway_kind(kind@),
{
    str_eq(kind, "motorway") || str_eq(kind, "motorway_link") || str_eq(kind, "trunk") || str_eq(
        kind,
        "trunk_link",
    ) || str_eq(kind, "primary") || str_eq(kind, "primary_link") || str_eq(kind, "secondary")
        || str_eq(kind, "secondary_link") || str_eq(kind, "tertiary") || str_eq(
        kind,
        "tertiary_link",
    ) || str_eq(kind, "unclassified") || str_eq(kind, "residential") || str_eq(
        kind,
        "living_street",
    ) || str_eq(kind, "service") || str_eq(kind, "pedestrian")
}

fn path_kind(kind: &str) -> (r: bool)
    ensures
        r == is_path_kind(kind@),
{
    str_eq(kind, "footway") || str_eq(kind, "path") || str_eq(kind, "steps") || str_eq(
        kind,
        "cycleway",
    )
}

impl StreetSet {
    /// The set's name in reports.
    pub fn label(self) -> (r: &'static str)
        ensures
            r@ == match self {
                StreetSet::Carriageway => "carriageway"@,
                StreetSet::AllWays => "all_ways"@,
            },
    {
        match self {
            StreetSet::Carriageway => "carriageway",
            StreetSet::AllWays => "all_ways",
        }
    }

    /// Whether this set keeps ways tagged `highway=kind`.
    pub fn keeps(self, kind: &str) -> (r: bool)
        ensures
            r == set_keeps(self, kind@),
    {
        carriageway_kind(kind) || (matches!(self, StreetSet::AllWays) && path_kind(kind))
    }
}

/// The render class of a `highway` kind.
pub open spec fn spec_class_of(k: Seq<char>) -> Class {
    if k == "motorway"@ || k == "trunk"@ || k == "primary"@ || k == "motorway_link"@ || k
        == "trunk_link"@ || k == "primary_link"@ {
        Class::Corridor
    } else if k == "secondary"@ || k == "tertiary"@ || k == "unclassified"@ || k == "residential"@
        || k == "secondary_link"@ || k == "tertiary_link"@ {
        Class::Street
    } else {
        Class::Lane
    }
}

/// The render class of a `highway` kind: trunk roads are corridors,
/// through streets are streets, everything else is a lane.
pub fn class_of(kind: &str) -> (r: Class)
    ensures
        r == spec_class_of(kind@),
{
    if str_eq(kind, "motorway") || str_eq(kind, "trunk") || str_eq(kind, "primary") || str_eq(
        kind,
        "motorway_link",
    ) || str_eq(kind, "trunk_link") || str_eq(kind, "primary_link") {
        Class::Corridor
    } else if str_eq(kind, "secondary") || str_eq(kind, "tertiary") || str_eq(kind, "unclassified")
        || str_eq(kind, "residential") || str_eq(kind, "secondary_link") || str_eq(
        kind,
        "tertiary_link",
    ) {
        Class::Street
    } else {
        Class::Lane
    }
}

/// `service` values whose ways both street sets exclude.
pub open spec fn is_excluded_service(s: Seq<char>) -> bool {
    s == "driveway"@ || s == "parking_aisle"@
}

/// The import decision for one way with a `highway` tag: kept by the
/// set and not an excluded service way, it enters the graph with the
/// class of its kind; otherwise it is skipped.
pub fn way_class(set: StreetSet, kind: &str, service: Option<&str>) -> (r: Option<Class>)
    ensures
        r is Some <==> set_keeps(set, kind@) && !(service matches Some(s) && is_excluded_service(
            s@,
        )),
        r matches Some(c) ==> c == spec_class_of(kind@),
{
    if !set.keeps(kind) {
        return None;
    }
    match service {
        Some(s) => {
            if str_eq(s, "driveway") || str_eq(s, "parking_aisle") {
                return None;
            }
        },
        None => {},
    }
    Some(class_of(kind))
}

/// The road hierarchy: motorways, trunk and primary roads and their
/// links are corridors; secondary, tertiary, unclassified and
/// residential roads and their links are streets; every other kind is a
/// lane.
pub proof fn lemma_road_hierarchy(k: Seq<char>)
    ensures
        (k == "motorway"@ || k == "trunk"@ || k == "primary"@ || k == "motorway_link"@ || k == "trunk_link"@ || k == "primary_link"@) <==> spec_class_of(k) == Class::Corridor,
        (k == "secondary"@ || k == "tertiary"@ || k == "unclassified"@ || k == "residential"@ || k == "secondary_link"@ || k == "tertiary_link"@) <==> spec_class_of(k) == Class::Street,
        !(k == "motorway"@ || k == "trunk"@ || k == "primary"@ || k == "motorway_link"@ || k == "trunk_link"@ || k == "primary_link"@ || k == "secondary"@ || k == "tertiary"@ || k == "unclassified"@ || k == "residential"@ || k == "secondary_link"@ || k == "tertiary_link"@) <==> spec_class_of(k) == Class::Lane,
{
    reveal_strlit("motorway");
    reveal_strlit("trunk");
    reveal_strlit("primary");
    reveal_strlit("motorway_link");
    reveal_strlit("trunk_link");
    reveal_strlit("primary_link");
    reveal_strlit("secondary");
    reveal_strlit("tertiary");
    reveal_strlit("unclassified");
    reveal_strlit("residential");
    reveal_strlit("secondary_link");
    reveal_strlit("tertiary_link");
    assert("secondary"@.len() != "motorway"@.len());
    assert("secondary"@.len() != "trunk"@.len());
    assert("secondary"@.len() != "primary"@.len());
    assert("secondary"@.len() != "motorway_link"@.len());
    assert("secondary"@.len() != "trunk_link"@.len());
    assert("secondary"@.len() != "primary_link"@.len());
    assert("tertiary"@[0] != "motorway"@[0]);
    assert("tertiary"@.len() != "trunk"@.len());
    assert("tertiary"@.len() != "primary"@.len());
    assert("tertiary"@.len() != "motorway_link"@.len());
    assert("tertiary"@.len() != "trunk_link"@.len());
    assert("tertiary"@.len() != "primary_link"@.len());
    assert("unclassified"@.len() != "motorway"@.len());
    assert("unclassified"@.len() != "trunk"@.len());
    assert("unclassified"@.len() != "primary"@.len());
    assert("unclassified"@.len() != "motorway_link"@.len());
    assert("unclassified"@.len() != "trunk_link"@.len());
    assert("unclassified"@[0] != "primary_link"@[0]);
    assert("residential"@.len() != "motorway"@.len());
    assert("residential"@.len() != "trunk"@.len());
    assert("residential"@.len() != "primary"@.len());
    assert("residential"@.len() != "motorway_link"@.len());
    assert("residential"@.len() != "trunk_link"@.len());
    assert("residential"@.len() != "primary_link"@.len());
    assert("secondary_link"@.len() != "motorway"@.len());
    assert("secondary_link"@.len() != "trunk"@.len());
    assert("secondary_link"@.len() != "primary"@.len());
    assert("secondary_link"@.len() != "motorway_link"@.len());
    assert("secondary_link"@.len() != "trunk_link"@.len());
    assert("secondary_link"@.len() != "primary_link"@.len());
    assert("tertiary_link"@.len() != "motorway"@.len());
    assert("tertiary_link"@.len() != "trunk"@.len());
    assert("tertiary_link"@.len() != "primary"@.len());
    assert("tertiary_link"@[0] != "motorway_link"@[0]);
    assert("tertiary_link"@.len() != "trunk_link"@.len());
    assert("tertiary_link"@.len() != "primary_link"@.len());
}

/// Both street sets keep every carriageway kind (the drivable highway
/// kinds, their links, living streets, service roads and pedestrian
/// streets), and the carriageway set keeps nothing else; the all-ways
/// set adds footways, paths, steps and cycleways.
pub proof fn lemma_street_sets(set: StreetSet, k: Seq<char>)
    ensures
        (k == "motorway"@ || k == "motorway_link"@ || k == "trunk"@ || k == "trunk_link"@ || k == "primary"@ || k == "primary_link"@ || k == "secondary"@ || k == "secondary_link"@ || k == "tertiary"@ || k == "tertiary_link"@ || k == "unclassified"@ || k == "residential"@ || k == "living_street"@ || k == "service"@ || k == "pedestrian"@) ==> set_keeps(set, k),
        set_keeps(StreetSet::Carriageway, k) ==> (k == "motorway"@ || k == "motorway_link"@ || k == "trunk"@ || k == "trunk_link"@ || k == "primary"@ || k == "primary_link"@ || k == "secondary"@ || k == "secondary_link"@ || k == "tertiary"@ || k == "tertiary_link"@ || k == "unclassified"@ || k == "residential"@ || k == "living_street"@ || k == "service"@ || k == "pedestrian"@),
        (k == "footway"@ || k == "path"@ || k == "steps"@ || k == "cycleway"@) ==> set_keeps(StreetSet::AllWays, k),
        set_keeps(StreetSet::AllWays, k) ==> (k == "motorway"@ || k == "motorway_link"@ || k == "trunk"@ || k == "trunk_link"@ || k == "primary"@ || k == "primary_link"@ || k == "secondary"@ || k == "secondary_link"@ || k == "tertiary"@ || k == "tertiary_link"@ || k == "unclassified"@ || k == "residential"@ || k == "living_street"@ || k == "service"@ || k == "pedestrian"@ || k == "footway"@ || k == "path"@ || k == "steps"@ || k == "cycleway"@),
{
}

/// A way of a carriageway kind whose `service` tag is not an excluded
/// one (driveway, parking aisle) enters the graph of either street set.
pub proof fn lemma_carriageway_ways_enter(set: StreetSet, k: Seq<char>, service: Option<Seq<char>>)
    requires
        k == "motorway"@ || k == "motorway_link"@ || k == "trunk"@ || k == "trunk_link"@ || k == "primary"@ || k == "primary_link"@ || k == "secondary"@ || k == "secondary_link"@ || k == "tertiary"@ || k == "tertiary_link"@ || k == "unclassified"@ || k == "residential"@ || k == "living_street"@ || k == "service"@ || k == "pedestrian"@,
        !(service matches Some(s) && (s == "driveway"@ || s == "parking_aisle"@)),
    ensures
        set_keeps(set, k) && !(service matches Some(s) && is_excluded_service(s)),
{
}

/// Exactly two `service` values keep a way out of both street sets:
/// driveways and parking aisles.
pub proof fn lemma_excluded_services(s: Seq<char>)
    ensures
        is_excluded_service(s) <==> (s == "driveway"@ || s == "parking_aisle"@),
{
}

} // verus!
