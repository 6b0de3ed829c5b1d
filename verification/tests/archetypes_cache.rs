use replicon_core::archetypes::{
    ArchetypeInfo, ReplicatedArchetypes, ReplicationRule, ReplicationRules, StorageType,
};
use replicon_core::registry::FnsId;

const MARKER: u64 = 0;
const COMPONENT_A: u64 = 1;
const COMPONENT_B: u64 = 2;
const COMPONENT_C: u64 = 3;

fn table(cid: u64) -> (u64, StorageType) {
    (cid, StorageType::Table)
}

fn rule(components: &[u64]) -> ReplicationRule {
    ReplicationRule {
        priority: components.len(),
        components: components.iter().enumerate().map(|(i, &c)| (c, FnsId(i as u64))).collect(),
    }
}

fn match_archetypes(archetypes: Vec<ArchetypeInfo>, rules: ReplicationRules) -> ReplicatedArchetypes {
    let mut cache = ReplicatedArchetypes::new(MARKER);
    cache.update(&archetypes, &rules);
    cache
}

#[test]
fn empty() {
    let archetypes = vec![ArchetypeInfo { id: 0, components: vec![] }];

    let cache = match_archetypes(archetypes, ReplicationRules::new());
    assert_eq!(cache.len(), 0);
}

#[test]
fn no_components() {
    let archetypes = vec![ArchetypeInfo { id: 0, components: vec![table(MARKER)] }];

    let cache = match_archetypes(archetypes, ReplicationRules::new());
    assert_eq!(cache.len(), 1);
    assert!(cache.archetype_at(0).components.is_empty());
}

#[test]
fn not_replicated() {
    let mut rules = ReplicationRules::new();
    rules.insert(rule(&[COMPONENT_A]));
    let archetypes = vec![
        ArchetypeInfo { id: 0, components: vec![table(MARKER), table(COMPONENT_B)] },
    ];

    let cache = match_archetypes(archetypes, rules);
    assert!(cache.archetype_at(0).components.is_empty());
}

#[test]
fn component() {
    let mut rules = ReplicationRules::new();
    rules.insert(rule(&[COMPONENT_A]));
    let archetypes = vec![
        ArchetypeInfo { id: 0, components: vec![table(MARKER), table(COMPONENT_A)] },
    ];

    let cache = match_archetypes(archetypes, rules);
    assert_eq!(cache.archetype_at(0).components.len(), 1);
}

#[test]
fn group() {
    let mut rules = ReplicationRules::new();
    rules.insert(rule(&[COMPONENT_A, COMPONENT_B]));
    let archetypes = vec![
        ArchetypeInfo {
            id: 0,
            components: vec![table(MARKER), table(COMPONENT_A), table(COMPONENT_B)],
        },
    ];

    let cache = match_archetypes(archetypes, rules);
    assert_eq!(cache.archetype_at(0).components.len(), 2);
}

#[test]
fn part_of_group() {
    let mut rules = ReplicationRules::new();
    rules.insert(rule(&[COMPONENT_A, COMPONENT_B]));
    let archetypes = vec![
        ArchetypeInfo { id: 0, components: vec![table(MARKER), table(COMPONENT_A)] },
    ];

    let cache = match_archetypes(archetypes, rules);
    assert!(cache.archetype_at(0).components.is_empty());
}

#[test]
fn group_with_subset() {
    let mut rules = ReplicationRules::new();
    rules.insert(rule(&[COMPONENT_A]));
    rules.insert(rule(&[COMPONENT_A, COMPONENT_B]));
    let archetypes = vec![
        ArchetypeInfo {
            id: 0,
            components: vec![table(MARKER), table(COMPONENT_A), table(COMPONENT_B)],
        },
    ];

    let cache = match_archetypes(archetypes, rules);
    assert_eq!(cache.archetype_at(0).components.len(), 2);
}

#[test]
fn group_with_multiple_subsets() {
    let mut rules = ReplicationRules::new();
    rules.insert(rule(&[COMPONENT_A]));
    rules.insert(rule(&[COMPONENT_B]));
    rules.insert(rule(&[COMPONENT_A, COMPONENT_B]));
    let archetypes = vec![
        ArchetypeInfo {
            id: 0,
            components: vec![table(MARKER), table(COMPONENT_A), table(COMPONENT_B)],
        },
    ];

    let cache = match_archetypes(archetypes, rules);
    assert_eq!(cache.archetype_at(0).components.len(), 2);
}

#[test]
fn groups_with_overlap() {
    let mut rules = ReplicationRules::new();
    rules.insert(rule(&[COMPONENT_A, COMPONENT_C]));
    rules.insert(rule(&[COMPONENT_A, COMPONENT_B]));
    let archetypes = vec![
        ArchetypeInfo {
            id: 0,
            components: vec![
                table(MARKER),
                table(COMPONENT_A),
                table(COMPONENT_B),
                table(COMPONENT_C),
            ],
        },
    ];

    let cache = match_archetypes(archetypes, rules);
    assert_eq!(cache.archetype_at(0).components.len(), 3);
}

#[test]
fn incremental_update_scans_only_new() {
    let mut rules = ReplicationRules::new();
    rules.insert(rule(&[COMPONENT_A]));
    let mut archetypes = vec![
        ArchetypeInfo { id: 0, components: vec![table(MARKER), table(COMPONENT_A)] },
    ];

    let mut cache = ReplicatedArchetypes::new(MARKER);
    cache.update(&archetypes, &rules);
    assert_eq!(cache.len(), 1);

    archetypes.push(ArchetypeInfo { id: 1, components: vec![table(MARKER)] });
    cache.update(&archetypes, &rules);
    assert_eq!(cache.len(), 2);
    assert_eq!(cache.archetype_at(1).id, 1);

    // A second pass over the same store adds nothing.
    cache.update(&archetypes, &rules);
    assert_eq!(cache.len(), 2);
}

#[test]
fn sparse_storage_is_kept() {
    let mut rules = ReplicationRules::new();
    rules.insert(rule(&[COMPONENT_A]));
    let archetypes = vec![
        ArchetypeInfo {
            id: 0,
            components: vec![table(MARKER), (COMPONENT_A, StorageType::SparseSet)],
        },
    ];

    let cache = match_archetypes(archetypes, rules);
    assert_eq!(cache.archetype_at(0).components[0].storage_type, StorageType::SparseSet);
}
