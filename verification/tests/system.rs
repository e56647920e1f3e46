use electosim::methods::Method;
use electosim::tree::multi_district::{DistrictConfig, MultiDistrictConfig};
use electosim::tree::system::ElectionSystem;
use electosim::tree::unique_district::UniqueDistrict;
use electosim::tree::ElectionTree;
use electosim::compute_with_cutoff;
use electosim::interface::WithSeats;
use electosim::models::Candidacy;
use electosim::Cutoff;

#[test]
fn test_election_system() {
    let tree = ElectionTree::default();
    let config = UniqueDistrict::new(Method::DHONDT, 13, Cutoff::new(3, 100));
    let mut system = ElectionSystem::create(tree, config);

    let candeleda = system.create_region("Candeleda");
    let pp = system.create_candidacy("Partido Popular");
    let psoe = system.create_candidacy("Partido Socialista Obrero Español");
    let pcal = system.create_candidacy("Partido de Castilla y León");

    system.increase_votes(candeleda, pp, 1846).unwrap();
    system.increase_votes(candeleda, psoe, 1114).unwrap();
    system.increase_votes(candeleda, pcal, 466).unwrap();

    assert_eq!(system.global_get_seats(pp), 7);
    assert_eq!(system.global_get_seats(psoe), 4);
    assert_eq!(system.global_get_seats(pcal), 2);
}

struct Example {
    pub system: ElectionSystem<MultiDistrictConfig>,
    pub avila: u32,
    pub cyl: u32,
    pub segovia: u32,
    pub madrid: u32,
    pub pp: u32,
    pub psoe: u32,
    pub vox: u32,
    pub sumar: u32,
}

fn base() -> Example {
    let tree = ElectionTree::default();
    let config = MultiDistrictConfig::new();
    let mut system = ElectionSystem::create(tree, config);

    let avila = system.create_region("Ávila");
    let cyl: u32 = system.create_region("Castilla y León");
    let segovia = system.create_region("Segovia");
    let madrid = system.create_region("Madrid");

    system.set_parent(avila, cyl).unwrap();
    system.set_parent(segovia, cyl).unwrap();

    let pp = system.create_candidacy("Partido Popular");
    let psoe = system.create_candidacy("Partido Socialista Obrero Español");
    let vox = system.create_candidacy("Vox");
    let sumar = system.create_candidacy("Sumar");

    system.increase_votes(avila, pp, 42_369).unwrap();
    system.increase_votes(avila, psoe, 26_828).unwrap();
    system.increase_votes(avila, vox, 15_068).unwrap();
    system.increase_votes(avila, sumar, 5_027).unwrap();

    system.increase_votes(segovia, pp, 39_894).unwrap();
    system.increase_votes(segovia, psoe, 27_113).unwrap();
    system.increase_votes(segovia, vox, 12_510).unwrap();
    system.increase_votes(segovia, sumar, 7_137).unwrap();

    system.increase_votes(madrid, pp, 1_463_183).unwrap();
    system.increase_votes(madrid, psoe, 1_004_599).unwrap();
    system.increase_votes(madrid, sumar, 557_780).unwrap();
    system.increase_votes(madrid, vox, 506_164).unwrap();

    Example { system, avila, cyl, segovia, madrid, pp, psoe, vox, sumar }
}

#[test]
fn test_multi_district() {
    let mut example = base();

    example
        .system
        .set_config(example.avila, DistrictConfig::new(Method::DHONDT, 3, Cutoff::new(3, 100)));
    example
        .system
        .set_config(example.segovia, DistrictConfig::new(Method::DHONDT, 3, Cutoff::new(3, 100)));
    example
        .system
        .set_config(example.madrid, DistrictConfig::new(Method::DHONDT, 37, Cutoff::new(3, 100)));

    assert_eq!(example.system.global_get_seats(example.pp), 20);
    assert_eq!(example.system.global_get_seats(example.psoe), 12);
    assert_eq!(example.system.global_get_seats(example.vox), 5);
    assert_eq!(example.system.global_get_seats(example.sumar), 6);

    for party in [example.pp, example.psoe, example.vox, example.sumar] {
        assert_eq!(
            example.system.get_seats(example.cyl, party).unwrap(),
            example.system.get_seats(example.avila, party).unwrap()
                + example.system.get_seats(example.segovia, party).unwrap()
        )
    }
}

#[test]
fn test_change_method() {
    let mut example = base();

    example
        .system
        .set_config(example.avila, DistrictConfig::new(Method::DHONDT, 3, Cutoff::new(3, 100)));

    example.system.set_config(
        example.avila,
        DistrictConfig::new(Method::WINNERTAKESALL, 5, Cutoff::new(3, 100)),
    );

    for (party, seats) in
        [(example.pp, 5), (example.psoe, 0), (example.vox, 0), (example.sumar, 0)]
    {
        assert_eq!(example.system.get_seats(example.avila, party).unwrap(), seats);
    }
}

#[test]
fn test_change_votes() {
    let mut example = base();

    example
        .system
        .set_config(example.avila, DistrictConfig::new(Method::DHONDT, 3, Cutoff::new(3, 100)));

    example.system.set_votes(example.avila, example.pp, 26_828).unwrap();
    example.system.set_votes(example.avila, example.psoe, 42_369).unwrap();

    for (party, seats) in [(example.psoe, 2), (example.pp, 1)] {
        assert_eq!(example.system.get_seats(example.avila, party).unwrap(), seats);
    }
}

#[test]
fn removing_config_clears_seats() {
    let mut example = base();

    example
        .system
        .set_config(example.avila, DistrictConfig::new(Method::DHONDT, 3, Cutoff::new(3, 100)));
    assert!(example.system.get_seats(example.avila, example.pp).unwrap() > 0);

    example.system.remove_config(example.avila);
    for party in [example.pp, example.psoe, example.vox, example.sumar] {
        assert_eq!(example.system.get_seats(example.avila, party).unwrap(), 0);
    }
}

#[test]
fn leaf_only_writes() {
    let mut example = base();
    // cyl has children, so the façade refuses direct vote writes there,
    // while the tree itself accepts them
    let votes_before = example.system.tree.get_votes(example.cyl, example.pp).unwrap();
    let res = example.system.increase_votes(example.cyl, example.pp, 1);
    assert!(res.is_err());
    assert_eq!(
        example.system.tree.get_votes(example.cyl, example.pp).unwrap(),
        votes_before
    );
    let mut tree = ElectionTree::default();
    let parent = tree.add_region("parent");
    let child = tree.add_region("child");
    tree.set_parent(child, parent).unwrap();
    let c = tree.add_candidacy("c");
    // tree-level write on a non-leaf is unrestricted
    tree.increase_votes(parent, c, 5).unwrap();
    assert_eq!(tree.get_votes(parent, c).unwrap(), 5);
}

#[test]
fn hierarchy_rollup_and_move() {
    let mut tree = ElectionTree::default();
    let parent_a = tree.add_region("parent a");
    let parent_b = tree.add_region("parent b");
    let leaf_one = tree.add_region("leaf one");
    let leaf_two = tree.add_region("leaf two");
    tree.set_parent(leaf_one, parent_a).unwrap();
    tree.set_parent(leaf_two, parent_a).unwrap();
    let c = tree.add_candidacy("c");

    tree.increase_votes(leaf_one, c, 30).unwrap();
    tree.increase_votes(leaf_two, c, 12).unwrap();

    // the parent and the global root both carry the sum of the leaves
    assert_eq!(tree.get_votes(parent_a, c).unwrap(), 42);
    assert_eq!(tree.global_get_votes(c), 42);

    // moving one leaf moves its contribution; the global total stands
    tree.set_parent(leaf_two, parent_b).unwrap();
    assert_eq!(tree.get_votes(parent_a, c).unwrap(), 30);
    assert_eq!(tree.get_votes(parent_b, c).unwrap(), 12);
    assert_eq!(tree.global_get_votes(c), 42);
}

#[test]
fn clear_region_is_idempotent() {
    let mut tree = ElectionTree::default();
    let parent = tree.add_region("parent");
    let leaf = tree.add_region("leaf");
    tree.set_parent(leaf, parent).unwrap();
    let c = tree.add_candidacy("c");
    tree.increase_votes(leaf, c, 9).unwrap();
    tree.increase_seats(leaf, c, 4).unwrap();

    tree.clear_region(leaf).unwrap();
    let votes_once = tree.get_votes(leaf, c).unwrap();
    let seats_once = tree.get_seats(leaf, c).unwrap();
    let parent_seats_once = tree.get_seats(parent, c).unwrap();

    tree.clear_region(leaf).unwrap();
    assert_eq!(tree.get_votes(leaf, c).unwrap(), votes_once);
    assert_eq!(tree.get_seats(leaf, c).unwrap(), seats_once);
    assert_eq!(tree.get_seats(parent, c).unwrap(), parent_seats_once);
    assert_eq!(seats_once, 0);
    assert_eq!(parent_seats_once, 0);
    assert_eq!(votes_once, 9);
}

#[test]
fn cutoff_excludes_low_votes() {
    // cutoff votes are 1 (11 / 10 rounded down), so the second candidacy
    // with 1 vote is excluded and all 13 seats go to the first
    let mut cands = vec![Candidacy::new(10, 0), Candidacy::new(1, 0)];
    compute_with_cutoff(&mut cands, 13, Method::DHONDT, Cutoff::new(1, 10)).unwrap();
    assert_eq!(cands.len(), 2);
    assert_eq!(cands[0].get_seats(), 13);
    assert_eq!(cands[1].get_seats(), 0);
}

#[test]
fn removing_a_region_cascades() {
    let mut tree = ElectionTree::default();
    let top = tree.add_region("top");
    let mid = tree.add_region("mid");
    let leaf = tree.add_region("leaf");
    tree.set_parent(mid, top).unwrap();
    tree.set_parent(leaf, mid).unwrap();

    tree.remove_region(mid, true).unwrap();
    assert!(tree.get_region(mid).is_err());
    assert!(tree.get_region(leaf).is_err());
    assert!(tree.get_region(top).is_ok());

    let mut tree2 = ElectionTree::default();
    let top2 = tree2.add_region("top");
    let mid2 = tree2.add_region("mid");
    let leaf2 = tree2.add_region("leaf");
    tree2.set_parent(mid2, top2).unwrap();
    tree2.set_parent(leaf2, mid2).unwrap();

    tree2.remove_region(mid2, false).unwrap();
    assert!(tree2.get_region(mid2).is_err());
    assert!(tree2.get_region(leaf2).is_ok());
    assert_eq!(tree2.get_parent(leaf2).unwrap(), None);
}

#[test]
fn removing_a_candidacy_zeroes_it() {
    let mut tree = ElectionTree::default();
    let parent = tree.add_region("parent");
    let leaf = tree.add_region("leaf");
    tree.set_parent(leaf, parent).unwrap();
    let keep = tree.add_candidacy("keep");
    let gone = tree.add_candidacy("gone");
    tree.increase_votes(leaf, keep, 7).unwrap();
    tree.increase_votes(leaf, gone, 5).unwrap();

    tree.remove_candidacy(gone).unwrap();
    assert!(tree.get_candidacy(gone).is_err());
    assert_eq!(tree.get_votes(leaf, gone).unwrap(), 0);
    assert_eq!(tree.get_votes(parent, gone).unwrap(), 0);
    assert_eq!(tree.get_votes(leaf, keep).unwrap(), 7);
    assert_eq!(tree.get_votes(parent, keep).unwrap(), 7);
}

#[test]
fn absent_entries_read_zero() {
    let mut tree = ElectionTree::default();
    let region = tree.add_region("region");
    let c = tree.add_candidacy("c");
    assert_eq!(tree.get_votes(region, c).unwrap(), 0);
    assert_eq!(tree.get_seats(region, c).unwrap(), 0);
    assert!(tree.get_votes(99, c).is_err());
}
