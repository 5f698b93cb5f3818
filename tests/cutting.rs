use molding::error::Error;
use molding::molding::Molding;
use molding::molding_set::MoldingSet;

fn pieces_of(set: &MoldingSet) -> Vec<Vec<u16>> {
    set.moldings().iter().map(|m| m.pieces().clone()).collect()
}

fn remaining_of(set: &MoldingSet) -> Vec<u16> {
    set.moldings().iter().map(|m| m.length_remaining()).collect()
}

fn total_cut(set: &MoldingSet) -> u32 {
    set.moldings()
        .iter()
        .map(|m| m.pieces().iter().map(|&p| p as u32).sum::<u32>())
        .sum()
}

#[test]
fn new_set_is_empty() {
    let set = MoldingSet::new(2200);
    assert_eq!(set.fixed_piece(), 2200);
    assert!(set.moldings().is_empty());
}

#[test]
fn exact_fit_makes_one_full_molding() {
    let mut set = MoldingSet::new(2200);
    assert_eq!(set.add(2200), Ok(()));
    assert_eq!(pieces_of(&set), vec![vec![2200]]);
    assert_eq!(remaining_of(&set), vec![0]);
}

#[test]
fn descending_request_list() {
    let mut set = MoldingSet::new(2200);
    for piece in [2110, 2110, 2110, 2110, 940, 850] {
        assert_eq!(set.add(piece), Ok(()));
    }
    assert_eq!(set.moldings().len(), 5);
    assert_eq!(
        pieces_of(&set),
        vec![vec![2110], vec![2110], vec![2110], vec![2110], vec![940, 850]]
    );
    assert_eq!(remaining_of(&set), vec![90, 90, 90, 90, 410]);
}

#[test]
fn long_request_never_fails_through_add() {
    let mut set = MoldingSet::new(2200);
    assert_eq!(set.add(2201), Ok(()));
    assert_eq!(pieces_of(&set), vec![vec![2200], vec![1]]);
    assert_eq!(remaining_of(&set), vec![0, 2199]);
}

#[test]
fn add_partial_rejects_piece_longer_than_stock() {
    let mut set = MoldingSet::new(2200);
    assert_eq!(set.add(1000), Ok(()));
    assert_eq!(set.add_partial(2201), Err(Error::InvalidInput));
    assert_eq!(pieces_of(&set), vec![vec![1000]]);
}

#[test]
fn add_partial_accepts_whole_stock_length() {
    let mut set = MoldingSet::new(2200);
    assert_eq!(set.add_partial(2200), Ok(()));
    assert_eq!(pieces_of(&set), vec![vec![2200]]);
}

#[test]
fn whole_multiple_peels_full_moldings_only() {
    let mut set = MoldingSet::new(2200);
    assert_eq!(set.add(6600), Ok(()));
    assert_eq!(pieces_of(&set), vec![vec![2200], vec![2200], vec![2200]]);
    assert_eq!(remaining_of(&set), vec![0, 0, 0]);
}

#[test]
fn full_moldings_come_before_the_remainder() {
    let mut set = MoldingSet::new(1000);
    assert_eq!(set.add(300), Ok(()));
    assert_eq!(set.add(2500), Ok(()));
    // the remainder 500 best-fits into the first molding (700 left)
    assert_eq!(pieces_of(&set), vec![vec![300, 500], vec![1000], vec![1000]]);
}

#[test]
fn zero_request_changes_nothing() {
    let mut set = MoldingSet::new(2200);
    assert_eq!(set.add(500), Ok(()));
    assert_eq!(set.add(0), Ok(()));
    assert_eq!(pieces_of(&set), vec![vec![500]]);
}

#[test]
fn tie_goes_to_earlier_molding() {
    let mut set = MoldingSet::new(100);
    assert_eq!(set.add(60), Ok(()));
    assert_eq!(set.add(60), Ok(()));
    assert_eq!(set.add_partial(30), Ok(()));
    assert_eq!(pieces_of(&set), vec![vec![60, 30], vec![60]]);
}

#[test]
fn best_fit_picks_least_room() {
    let mut set = MoldingSet::new(100);
    assert_eq!(set.add(50), Ok(()));
    assert_eq!(set.add(80), Ok(()));
    assert_eq!(set.add(70), Ok(()));
    assert_eq!(remaining_of(&set), vec![50, 20, 30]);
    assert_eq!(set.add(15), Ok(()));
    assert_eq!(pieces_of(&set), vec![vec![50], vec![80, 15], vec![70]]);
    assert_eq!(set.add(25), Ok(()));
    assert_eq!(pieces_of(&set), vec![vec![50], vec![80, 15], vec![70, 25]]);
}

#[test]
fn no_room_opens_new_molding() {
    let mut set = MoldingSet::new(100);
    assert_eq!(set.add(90), Ok(()));
    assert_eq!(set.add(20), Ok(()));
    assert_eq!(pieces_of(&set), vec![vec![90], vec![20]]);
    assert_eq!(remaining_of(&set), vec![10, 80]);
}

#[test]
fn material_is_conserved() {
    let requests: Vec<u16> = vec![5000, 2110, 1800, 940, 850, 600, 600, 120, 0, 2200];
    let mut set = MoldingSet::new(2200);
    for &r in &requests {
        assert_eq!(set.add(r), Ok(()));
    }
    let asked: u32 = requests.iter().map(|&r| r as u32).sum();
    assert_eq!(total_cut(&set), asked);
}

#[test]
fn moldings_stay_within_stock_length() {
    let mut set = MoldingSet::new(1000);
    for r in [2500u16, 999, 700, 300, 300, 1, 1000, 450, 550] {
        assert_eq!(set.add(r), Ok(()));
    }
    for m in set.moldings() {
        assert_eq!(m.length(), 1000);
        let used: u32 = m.pieces().iter().map(|&p| p as u32).sum();
        assert!(used <= 1000);
        assert_eq!(m.length_remaining() as u32, 1000 - used);
    }
}

#[test]
fn largest_request_on_unit_stock() {
    let mut set = MoldingSet::new(1);
    assert_eq!(set.add(20), Ok(()));
    assert_eq!(set.moldings().len(), 20);
    let mut big = MoldingSet::new(u16::MAX);
    assert_eq!(big.add(u16::MAX), Ok(()));
    assert_eq!(pieces_of(&big), vec![vec![u16::MAX]]);
    assert_eq!(remaining_of(&big), vec![0]);
}

#[test]
fn cut_within_remaining_length() {
    let mut m = Molding::starting_with(100, 60);
    assert_eq!(m.length(), 100);
    assert_eq!(m.length_remaining(), 40);
    assert_eq!(m.add_piece(40), Ok(()));
    assert_eq!(m.pieces(), &vec![60, 40]);
    assert_eq!(m.length_remaining(), 0);
}

#[test]
fn cut_longer_than_remaining_is_refused() {
    let mut m = Molding::starting_with(100, 60);
    assert_eq!(m.add_piece(41), Err(Error::NotLongEnough));
    assert_eq!(m.pieces(), &vec![60]);
    assert_eq!(m.length_remaining(), 40);
}

#[test]
fn zero_length_cut_is_accepted() {
    let mut m = Molding::starting_with(100, 100);
    assert_eq!(m.add_piece(0), Ok(()));
    assert_eq!(m.pieces(), &vec![100, 0]);
    assert_eq!(m.length_remaining(), 0);
}
