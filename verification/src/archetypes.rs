use vstd::prelude::*;

verus! {

use crate::registry::FnsId;

/// Where a component's values live in the entity store.
#[derive(Clone, Copy, Debug, PartialEq, Eq, Structural)]
pub enum StorageType {
    /// Dense table storage.
    Table,
    /// Sparse-set storage.
    SparseSet,
}

/// What the cache reads of one archetype of the entity store: its identifier
/// and the component types its entities hold, each with its storage kind.
pub struct ArchetypeInfo {
    pub id: u64,
    pub components: Vec<(u64, StorageType)>,
}

/// Whether the archetype holds the component type `cid`.
pub open spec fn arch_has(components: Seq<(u64, StorageType)>, cid: u64) -> bool {
    exists|k: int| 0 <= k < components.len() && components[k].0 == cid
}

/// The storage kind the archetype gives `cid`, when it holds it.
pub open spec fn arch_storage(components: Seq<(u64, StorageType)>, cid: u64) -> StorageType
    decreases components.len(),
{
    if components.len() == 0 {
        StorageType::Table
    } else if components[0].0 == cid {
        components[0].1
    } else {
        arch_storage(components.skip(1), cid)
    }
}

impl ArchetypeInfo {
    /// Whether this archetype holds the component type `cid`, and with which
    /// storage kind.
    pub fn find_storage(&self, cid: u64) -> (r: Option<StorageType>)
        ensures
            r matches Some(st) ==> arch_has(self.components@, cid) && st == arch_storage(
                self.components@,
                cid,
            ),
            r is None ==> !arch_has(self.components@, cid),
    {
        let ghost cs = self.components@;
        proof {
            assert(cs.skip(0) =~= cs);
        }
        let mut i: usize = 0;
        while i < self.components.len()
            invariant
                i <= cs.len(),
                cs == self.components@,
                forall|k: int| 0 <= k < i ==> (#[trigger] cs[k]).0 != cid,
                arch_storage(cs, cid) == arch_storage(cs.skip(i as int), cid),
            decreases cs.len() - i,
        {
            proof {
                assert(cs.skip(i as int)[0] == cs[i as int]);
                assert(cs.skip(i as int).skip(1) =~= cs.skip(i as int + 1));
            }
            if self.components[i].0 == cid {
                return Some(self.components[i].1);
            }
            i = i + 1;
        }
        None
    }
}

/// One replication rule: a priority and the component types it claims, each
/// bound to its registered function set. A rule applies to an archetype only
/// when the archetype holds every one of its components.
pub struct ReplicationRule {
    pub priority: usize,
    pub components: Vec<(u64, FnsId)>,
}

/// Whether the rule claims anything on this archetype: all of its components
/// must be present.
pub open spec fn rule_matches(rule: Seq<(u64, FnsId)>, arch: Seq<(u64, StorageType)>) -> bool {
    forall|k: int| 0 <= k < rule.len() ==> arch_has(arch, (#[trigger] rule[k]).0)
}

impl ReplicationRule {
    /// Whether every component of the rule is present on the archetype.
    pub fn matches(&self, arch: &ArchetypeInfo) -> (r: bool)
        ensures
            r == rule_matches(self.components@, arch.components@),
    {
        let mut i: usize = 0;
        while i < self.components.len()
            invariant
                i <= self.components@.len(),
                forall|k: int|
                    0 <= k < i ==> arch_has(arch.components@, (#[trigger] self.components@[k]).0),
            decreases self.components@.len() - i,
        {
            if self.find_missing(arch, i) {
                return false;
            }
            i = i + 1;
        }
        true
    }

    /// Whether the rule's component `i` is missing from the archetype.
    fn find_missing(&self, arch: &ArchetypeInfo, i: usize) -> (r: bool)
        requires
            i < self.components@.len(),
        ensures
            r == !arch_has(arch.components@, self.components@[i as int].0),
    {
        let cid = self.components[i].0;
        match arch.find_storage(cid) {
            Some(_) => false,
            None => true,
        }
    }
}

/// The replication rules, kept sorted by priority with higher priorities
/// first; rules of equal priority keep their registration order.
pub struct ReplicationRules {
    pub rules: Vec<ReplicationRule>,
}

impl ReplicationRules {
    pub fn new() -> (r: Self)
        ensures
            r.rules@.len() == 0,
    {
        Self { rules: Vec::new() }
    }

    /// How many rules are registered.
    pub fn len(&self) -> (r: usize)
        ensures
            r == self.rules@.len(),
    {
        self.rules.len()
    }

    /// Registers a rule after every rule of the same or higher priority.
    #[verifier::loop_isolation(false)]
    pub fn insert(&mut self, rule: ReplicationRule)
        ensures
            final(self).rules@.len() == old(self).rules@.len() + 1,
            ({
                let p = rule_insert_pos(old(self).rules@, rule.priority);
                final(self).rules@ == old(self).rules@.insert(p, rule)
            }),
    {
        let ghost s = self.rules@;
        proof {
            assert(s.skip(0) =~= s);
            lemma_rule_insert_pos(s, rule.priority);
        }
        let mut i: usize = 0;
        while i < self.rules.len()
            invariant
                i <= s.len(),
                s == self.rules@,
                rule_insert_pos(s, rule.priority) == (if rule_insert_pos(
                    s.skip(i as int),
                    rule.priority,
                ) == 0 {
                    i as int
                } else {
                    i + rule_insert_pos(s.skip(i as int), rule.priority)
                }),
            decreases s.len() - i,
        {
            proof {
                assert(s.skip(i as int)[0] == s[i as int]);
                assert(s.skip(i as int).skip(1) =~= s.skip(i as int + 1));
                lemma_rule_insert_pos(s.skip(i as int + 1), rule.priority);
            }
            if rule.priority > self.rules[i].priority {
                proof {
                    assert(rule_insert_pos(s.skip(i as int), rule.priority) == 0);
                    assert(rule_insert_pos(s, rule.priority) == i as int);
                }
                self.rules.insert(i, rule);
                proof {
                    assert(self.rules@ =~= s.insert(i as int, rule));
                }
                return ;
            }
            i = i + 1;
        }
        proof {
            assert(s.skip(s.len() as int).len() == 0);
        }
        self.rules.push(rule);
        proof {
            assert(self.rules@ =~= s.insert(s.len() as int, rule));
        }
    }
}

/// Where a rule of priority `p` goes: after every rule whose priority is the
/// same or higher.
pub open spec fn rule_insert_pos(s: Seq<ReplicationRule>, p: usize) -> int
    decreases s.len(),
{
    if s.len() == 0 {
        0
    } else if p <= s[0].priority {
        1 + rule_insert_pos(s.skip(1), p)
    } else {
        0
    }
}

/// The insertion position is within the sequence.
pub proof fn lemma_rule_insert_pos(s: Seq<ReplicationRule>, p: usize)
    ensures
        0 <= rule_insert_pos(s, p) <= s.len(),
    decreases s.len(),
{
    if s.len() > 0 && p <= s[0].priority {
        lemma_rule_insert_pos(s.skip(1), p);
    }
}

/// One resolved component of a replicated archetype.
#[derive(Clone, Copy, Debug, PartialEq, Eq, Structural)]
pub struct ReplicatedComponent {
    pub component_id: u64,
    pub storage_type: StorageType,
    pub fns_id: FnsId,
}

/// Whether `cs` already claims the component type `cid`.
pub open spec fn claimed(cs: Seq<ReplicatedComponent>, cid: u64) -> bool {
    exists|k: int| 0 <= k < cs.len() && cs[k].component_id == cid
}

/// The claims after one rule's components are offered: a component already
/// claimed by an earlier (higher-priority) rule is left alone.
pub open spec fn spec_claim(
    cs: Seq<ReplicatedComponent>,
    rule: Seq<(u64, FnsId)>,
    arch: Seq<(u64, StorageType)>,
) -> Seq<ReplicatedComponent>
    decreases rule.len(),
{
    if rule.len() == 0 {
        cs
    } else {
        let cs1 = if claimed(cs, rule[0].0) {
            cs
        } else {
            cs.push(
                ReplicatedComponent {
                    component_id: rule[0].0,
                    storage_type: arch_storage(arch, rule[0].0),
                    fns_id: rule[0].1,
                },
            )
        };
        spec_claim(cs1, rule.skip(1), arch)
    }
}

/// The resolved components of one archetype: rules offer their claims in
/// priority order, and the first claim on a component type wins.
pub open spec fn spec_resolve_rules(
    cs: Seq<ReplicatedComponent>,
    rules: Seq<ReplicationRule>,
    arch: Seq<(u64, StorageType)>,
) -> Seq<ReplicatedComponent>
    decreases rules.len(),
{
    if rules.len() == 0 {
        cs
    } else {
        let cs1 = if rule_matches(rules[0].components@, arch) {
            spec_claim(cs, rules[0].components@, arch)
        } else {
            cs
        };
        spec_resolve_rules(cs1, rules.skip(1), arch)
    }
}

/// An archetype that holds the replication marker, with its resolved
/// replicated components.
pub struct ReplicatedArchetype {
    pub id: u64,
    pub components: Vec<ReplicatedComponent>,
}

/// `a` is the resolution of some marker-carrying archetype among the store's
/// archetypes `lo..hi`.
pub open spec fn resolved_from(
    a: ReplicatedArchetype,
    archs: Seq<ArchetypeInfo>,
    rules: Seq<ReplicationRule>,
    lo: int,
    hi: int,
    marker: u64,
) -> bool {
    exists|j: int|
        lo <= j < hi && j < archs.len() && arch_has((#[trigger] archs[j]).components@, marker)
            && a.id == archs[j].id && a.components@ == spec_resolve_rules(
            Seq::empty(),
            rules,
            archs[j].components@,
        )
}

/// Widening the scanned range keeps a resolution valid.
pub proof fn lemma_resolved_from_widen(
    a: ReplicatedArchetype,
    archs: Seq<ArchetypeInfo>,
    rules: Seq<ReplicationRule>,
    lo: int,
    hi: int,
    hi2: int,
    marker: u64,
)
    requires
        resolved_from(a, archs, rules, lo, hi, marker),
        hi <= hi2,
    ensures
        resolved_from(a, archs, rules, lo, hi2, marker),
{
    let j = choose|j: int|
        lo <= j < hi && j < archs.len() && arch_has((#[trigger] archs[j]).components@, marker)
            && a.id == archs[j].id && a.components@ == spec_resolve_rules(
            Seq::empty(),
            rules,
            archs[j].components@,
        );
    assert(arch_has(archs[j].components@, marker));
}

/// The cache entries one scan of the store's archetypes `lo..hi` yields: the
/// identifier and resolved components of each archetype carrying the marker,
/// in archetype order; archetypes without the marker yield nothing.
pub open spec fn scan_entries(
    archs: Seq<ArchetypeInfo>,
    rules: Seq<ReplicationRule>,
    lo: int,
    hi: int,
    marker: u64,
) -> Seq<(u64, Seq<ReplicatedComponent>)>
    decreases hi - lo,
{
    if lo >= hi {
        Seq::empty()
    } else {
        let rest = scan_entries(archs, rules, lo, hi - 1, marker);
        if arch_has(archs[hi - 1].components@, marker) {
            rest.push(
                (
                    archs[hi - 1].id,
                    spec_resolve_rules(Seq::empty(), rules, archs[hi - 1].components@),
                ),
            )
        } else {
            rest
        }
    }
}

/// The cached entries `got` are exactly the scanned entries `want`: as many,
/// and entry for entry the same identifier and resolved components.
pub open spec fn entries_match(
    got: Seq<ReplicatedArchetype>,
    want: Seq<(u64, Seq<ReplicatedComponent>)>,
) -> bool {
    &&& got.len() == want.len()
    &&& forall|k: int|
        0 <= k < got.len() ==> (#[trigger] got[k]).id == want[k].0 && got[k].components@
            == want[k].1
}

/// Cached information about all replicated archetypes: grows monotonically
/// as the entity store adds archetypes, never rescanning old ones.
pub struct ReplicatedArchetypes {
    /// Identifier of the replication marker component.
    pub marker_id: u64,
    /// How many of the store's archetypes have been scanned.
    pub generation: usize,
    /// The replicated archetypes seen so far.
    pub archetypes: Vec<ReplicatedArchetype>,
}

impl ReplicatedArchetypes {
    /// A fresh cache for the marker component `marker_id`.
    pub fn new(marker_id: u64) -> (r: Self)
        ensures
            r.marker_id == marker_id,
            r.generation == 0,
            r.archetypes@.len() == 0,
    {
        Self { marker_id, generation: 0, archetypes: Vec::new() }
    }

    /// Identifier of the replication marker component.
    pub fn marker_id(&self) -> (r: u64)
        ensures
            r == self.marker_id,
    {
        self.marker_id
    }

    /// How many replicated archetypes are cached.
    pub fn len(&self) -> (r: usize)
        ensures
            r == self.archetypes@.len(),
    {
        self.archetypes.len()
    }

    /// A borrowed view of the cached archetype at `i`.
    pub fn archetype_at(&self, i: usize) -> (r: &ReplicatedArchetype)
        requires
            i < self.archetypes@.len(),
        ensures
            r == &self.archetypes@[i as int],
    {
        &self.archetypes[i]
    }

    /// Brings the cache up to date with the store's archetypes: scans only
    /// those added since the last update, keeps the ones carrying the marker,
    /// and resolves their components against the rules, first claim winning.
    #[verifier::loop_isolation(false)]
    pub fn update(&mut self, archetypes: &Vec<ArchetypeInfo>, rules: &ReplicationRules)
        requires
            old(self).generation <= archetypes@.len(),
        ensures
            final(self).marker_id == old(self).marker_id,
            final(self).generation == archetypes@.len(),
            final(self).archetypes@.len() >= old(self).archetypes@.len(),
            forall|k: int|
                0 <= k < old(self).archetypes@.len() ==> #[trigger] final(self).archetypes@[k]
                    == old(self).archetypes@[k],
            forall|k: int|
                old(self).archetypes@.len() <= k < final(self).archetypes@.len()
                    ==> resolved_from(
                    #[trigger] final(self).archetypes@[k],
                    archetypes@,
                    rules.rules@,
                    old(self).generation as int,
                    archetypes@.len() as int,
                    old(self).marker_id,
                ),
            entries_match(
                final(self).archetypes@.skip(old(self).archetypes@.len() as int),
                scan_entries(
                    archetypes@,
                    rules.rules@,
                    old(self).generation as int,
                    archetypes@.len() as int,
                    old(self).marker_id,
                ),
            ),
    {
        let ghost oldgen = self.generation as int;
        let ghost oldlen = self.archetypes@.len() as int;
        proof {
            assert(self.archetypes@.skip(oldlen) =~= Seq::<ReplicatedArchetype>::empty());
        }
        let mut j = self.generation;
        while j < archetypes.len()
            invariant
                oldgen <= j <= archetypes@.len(),
                self.marker_id == old(self).marker_id,
                self.generation == old(self).generation,
                self.archetypes@.len() >= oldlen,
                forall|k: int|
                    0 <= k < oldlen ==> #[trigger] self.archetypes@[k] == old(self).archetypes@[k],
                forall|k: int|
                    oldlen <= k < self.archetypes@.len() ==> resolved_from(
                        #[trigger] self.archetypes@[k],
                        archetypes@,
                        rules.rules@,
                        oldgen,
                        j as int,
                        old(self).marker_id,
                    ),
                entries_match(
                    self.archetypes@.skip(oldlen),
                    scan_entries(archetypes@, rules.rules@, oldgen, j as int, old(self).marker_id),
                ),
            decreases archetypes@.len() - j,
        {
            let ghost before = self.archetypes@;
            let ghost scanned = scan_entries(
                archetypes@,
                rules.rules@,
                oldgen,
                j as int,
                old(self).marker_id,
            );
            let arch = &archetypes[j];
            match arch.find_storage(self.marker_id) {
                Some(_) => {
                    let resolved = resolve_components(arch, rules);
                    let entry = ReplicatedArchetype { id: arch.id, components: resolved };
                    self.archetypes.push(entry);
                    proof {
                        let newlen = self.archetypes@.len() as int;
                        assert(self.archetypes@[newlen - 1] == entry);
                        assert(resolved_from(
                            entry,
                            archetypes@,
                            rules.rules@,
                            oldgen,
                            j + 1,
                            old(self).marker_id,
                        ));
                        assert(self.archetypes@.skip(oldlen) =~= before.skip(oldlen).push(entry));
                        assert(scan_entries(
                            archetypes@,
                            rules.rules@,
                            oldgen,
                            j + 1,
                            old(self).marker_id,
                        ) == scanned.push(
                            (
                                archetypes@[j as int].id,
                                spec_resolve_rules(
                                    Seq::empty(),
                                    rules.rules@,
                                    archetypes@[j as int].components@,
                                ),
                            ),
                        ));
                    }
                },
                None => {
                    proof {
                        assert(scan_entries(
                            archetypes@,
                            rules.rules@,
                            oldgen,
                            j + 1,
                            old(self).marker_id,
                        ) == scanned);
                    }
                },
            }
            proof {
                assert forall|k: int| oldlen <= k < self.archetypes@.len() implies resolved_from(
                    #[trigger] self.archetypes@[k],
                    archetypes@,
                    rules.rules@,
                    oldgen,
                    j + 1,
                    old(self).marker_id,
                ) by {
                    if k < before.len() {
                        assert(self.archetypes@[k] == before[k]);
                        lemma_resolved_from_widen(
                            before[k],
                            archetypes@,
                            rules.rules@,
                            oldgen,
                            j as int,
                            j + 1,
                            old(self).marker_id,
                        );
                    }
                }
            }
            j = j + 1;
        }
        self.generation = archetypes.len();
    }
}

/// Resolves the replicated components of one archetype against the rules.
fn resolve_components(arch: &ArchetypeInfo, rules: &ReplicationRules) -> (r: Vec<
    ReplicatedComponent,
>)
    ensures
        r@ == spec_resolve_rules(Seq::empty(), rules.rules@, arch.components@),
{
    let ghost rs = rules.rules@;
    let mut out: Vec<ReplicatedComponent> = Vec::new();
    proof {
        assert(rs.skip(0) =~= rs);
    }
    let mut i: usize = 0;
    while i < rules.rules.len()
        invariant
            i <= rs.len(),
            rs == rules.rules@,
            spec_resolve_rules(out@, rs.skip(i as int), arch.components@) == spec_resolve_rules(
                Seq::empty(),
                rs,
                arch.components@,
            ),
        decreases rs.len() - i,
    {
        proof {
            assert(rs.skip(i as int)[0] == rs[i as int]);
            assert(rs.skip(i as int).skip(1) =~= rs.skip(i as int + 1));
        }
        let rule = &rules.rules[i];
        if rule.matches(arch) {
            claim_components(&mut out, rule, arch);
        }
        i = i + 1;
    }
    proof {
        assert(rs.skip(rs.len() as int).len() == 0);
    }
    out
}

/// Offers one matching rule's components, skipping types already claimed by
/// a higher-priority rule.
fn claim_components(out: &mut Vec<ReplicatedComponent>, rule: &ReplicationRule, arch: &ArchetypeInfo)
    ensures
        final(out)@ == spec_claim(old(out)@, rule.components@, arch.components@),
{
    let ghost rc = rule.components@;
    let ghost base = old(out)@;
    proof {
        assert(rc.skip(0) =~= rc);
    }
    let mut i: usize = 0;
    while i < rule.components.len()
        invariant
            i <= rc.len(),
            rc == rule.components@,
            spec_claim(out@, rc.skip(i as int), arch.components@) == spec_claim(
                base,
                rc,
                arch.components@,
            ),
        decreases rc.len() - i,
    {
        proof {
            assert(rc.skip(i as int)[0] == rc[i as int]);
            assert(rc.skip(i as int).skip(1) =~= rc.skip(i as int + 1));
        }
        let (cid, fns_id) = rule.components[i];
        if !is_claimed(out, cid) {
            let storage = match arch.find_storage(cid) {
                Some(st) => st,
                None => StorageType::Table,
            };
            proof {
                if !arch_has(arch.components@, cid) {
                    assert(arch_storage(arch.components@, cid) == StorageType::Table) by {
                        lemma_arch_storage_absent(arch.components@, cid);
                    }
                }
            }
            out.push(ReplicatedComponent { component_id: cid, storage_type: storage, fns_id });
        }
        i = i + 1;
    }
    proof {
        assert(rc.skip(rc.len() as int).len() == 0);
    }
}

/// A component the archetype lacks reads back as table storage.
proof fn lemma_arch_storage_absent(cs: Seq<(u64, StorageType)>, cid: u64)
    requires
        !arch_has(cs, cid),
    ensures
        arch_storage(cs, cid) == StorageType::Table,
    decreases cs.len(),
{
    if cs.len() > 0 {
        assert(cs[0].0 != cid);
        assert(!arch_has(cs.skip(1), cid)) by {
            if arch_has(cs.skip(1), cid) {
                let k = choose|k: int| 0 <= k < cs.skip(1).len() && cs.skip(1)[k].0 == cid;
                assert(cs[k + 1].0 == cid);
            }
        }
        lemma_arch_storage_absent(cs.skip(1), cid);
    }
}

/// Whether `out` already claims the component type `cid`.
fn is_claimed(out: &Vec<ReplicatedComponent>, cid: u64) -> (r: bool)
    ensures
        r == claimed(out@, cid),
{
    let mut i: usize = 0;
    while i < out.len()
        invariant
            i <= out@.len(),
            forall|k: int| 0 <= k < i ==> (#[trigger] out@[k]).component_id != cid,
        decreases out@.len() - i,
    {
        if out[i].component_id == cid {
            return true;
        }
        i = i + 1;
    }
    false
}

} // verus!
