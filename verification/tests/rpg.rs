use action_kv::Thing;

#[test]
fn a_successful_spell_keeps_the_thing() {
    let mut thing = Thing::Sword;
    thing.enchant(true);
    assert_eq!(thing, Thing::Sword);
    let mut thing = Thing::Trinket;
    thing.enchant(true);
    assert_eq!(thing, Thing::Trinket);
}

#[test]
fn a_failed_spell_leaves_a_trinket() {
    let mut thing = Thing::Sword;
    thing.enchant(false);
    assert_eq!(thing, Thing::Trinket);
    thing.enchant(false);
    assert_eq!(thing, Thing::Trinket);
}
