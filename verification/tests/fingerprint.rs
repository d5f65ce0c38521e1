use adam_core::ids::CountryId;
use adam_core::rng::WorldSeed;
use adam_core::time::SimDate;
use adam_core::world::{Country, World};

fn country(id: u32, name: &str) -> Country {
    Country::new(CountryId::new(id), name).expect("valid country")
}

fn empty_world() -> World {
    World::new(WorldSeed::new(1), SimDate::new(2025, 1).expect("valid date"))
}

#[test]
fn canonical_storage_ignores_country_insertion_order() {
    let build = |reverse: bool| {
        let mut world = empty_world();
        let countries = if reverse {
            [(2, "B"), (1, "A")]
        } else {
            [(1, "A"), (2, "B")]
        };
        for (id, name) in countries {
            world.register_country(country(id, name)).expect("unique country");
        }
        world
    };
    assert_eq!(build(false).stable_fingerprint(), build(true).stable_fingerprint());
    assert_ne!(build(false).events(), build(true).events());
}

#[test]
fn the_fingerprint_is_fnv_over_the_canonical_encoding() {
    assert_eq!(empty_world().stable_fingerprint(), 0x50ec_73d5_351d_3e3b);
    let mut world = empty_world();
    world.register_country(country(2, "B")).expect("country");
    world.register_country(country(1, "A")).expect("country");
    assert_eq!(world.stable_fingerprint(), 10_132_677_741_322_926_347);
}

#[test]
fn the_fingerprint_sees_state_but_not_history() {
    let mut a = empty_world();
    a.register_country(country(1, "A")).expect("country");
    let mut b = empty_world();
    b.register_country(country(1, "Z")).expect("country");
    assert_ne!(a.stable_fingerprint(), b.stable_fingerprint());
    let mut c = a.clone();
    c.events = adam_core::event::EventLog::new();
    assert_eq!(a.stable_fingerprint(), c.stable_fingerprint());
    let other_seed = World::new(WorldSeed::new(2), SimDate::new(2025, 1).expect("date"));
    assert_ne!(empty_world().stable_fingerprint(), other_seed.stable_fingerprint());
}
