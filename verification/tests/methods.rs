use electosim::interface::{WithSeats, WithVotes};
use electosim::methods::{get_method_function, Method};
use electosim::models::Candidacy;
use electosim::utils::{clear_results, compute_total_seats, compute_total_votes};

const METHODS: [Method; 11] = [
    Method::DHONDT,
    Method::HARE,
    Method::DROOP,
    Method::SAINTELAGUE,
    Method::ADAMS,
    Method::IMPERIALI,
    Method::HUNTINGTONHILL,
    Method::DANISH,
    Method::WINNERTAKESALL,
    Method::HAGENBASCHBISCHOFF,
    Method::IMPERIALIQUOTIENT,
];

#[test]
fn test_all_methods() {
    let mut candidacies = vec![
        Candidacy::new(2010, 9),
        Candidacy::new(1018, 4),
        Candidacy::new(86, 0),
        Candidacy::new(77, 0),
    ];
    for method in METHODS.iter() {
        get_method_function(*method, &mut candidacies, 13).unwrap();
    }
}

#[test]
fn test_empty_results() {
    let mut candidacies: Vec<Candidacy> = vec![];
    for method in METHODS.iter() {
        assert_eq!(get_method_function(*method, &mut candidacies, 13), Err("EMPTY_RESULTS"));
    }
}

#[test]
fn dhondt_example() {
    let mut candidacies = vec![
        Candidacy::new(2010, 0),
        Candidacy::new(1018, 0),
        Candidacy::new(86, 0),
        Candidacy::new(77, 0),
    ];
    get_method_function(Method::DHONDT, &mut candidacies, 13).unwrap();
    let seats: Vec<u16> = candidacies.iter().map(|c| c.get_seats()).collect();
    assert_eq!(seats, vec![9, 4, 0, 0]);
}

#[test]
fn test_candidacy() {
    let mut candidacy = Candidacy::new(1000, 3);
    assert_eq!(candidacy.get_votes(), 1000);
    assert_eq!(candidacy.get_seats(), 3);
    candidacy.set_votes(2000);
    candidacy.set_seats(5);
    assert_eq!(candidacy.get_votes(), 2000);
    assert_eq!(candidacy.get_seats(), 5);
}

#[test]
fn listing_candidacy() {
    let candidacies = vec![
        Candidacy::new(2010, 9),
        Candidacy::new(1018, 4),
        Candidacy::new(86, 0),
        Candidacy::new(77, 0),
    ];
    assert_eq!(compute_total_votes(&candidacies), 3191);
    assert_eq!(compute_total_seats(&candidacies), 13);
}

#[test]
fn clearing_results() {
    let mut candidacies = vec![
        Candidacy::new(2010, 9),
        Candidacy::new(1018, 4),
        Candidacy::new(86, 0),
        Candidacy::new(77, 0),
    ];
    clear_results(&mut candidacies);
    assert_eq!(candidacies[0].get_seats(), 0);
    assert_eq!(candidacies[1].get_seats(), 0);
    assert_eq!(candidacies[2].get_seats(), 0);
    assert_eq!(candidacies[3].get_seats(), 0);
}

struct Candidate {
    votes: u32,
    seats: u16,
}

impl WithVotes for Candidate {
    fn spec_votes(&self) -> u32 {
        self.votes
    }

    fn with_votes(self, votes: u32) -> Self {
        Candidate { votes, ..self }
    }

    fn get_votes(&self) -> u32 {
        self.votes
    }

    fn set_votes(&mut self, votes: u32) {
        self.votes = votes;
    }
}

impl WithSeats for Candidate {
    fn spec_seats(&self) -> u16 {
        self.seats
    }

    fn with_seats(self, seats: u16) -> Self {
        Candidate { seats, ..self }
    }

    fn get_seats(&self) -> u16 {
        self.seats
    }

    fn set_seats(&mut self, seats: u16) {
        self.seats = seats;
    }
}

#[test]
fn test_with_votes() {
    let mut candidate = Candidate { votes: 1000, seats: 0 };
    assert_eq!(candidate.get_votes(), 1000);
    candidate.set_votes(2000);
    assert_eq!(candidate.get_votes(), 2000);
    candidate.increase_votes(100);
    assert_eq!(candidate.get_votes(), 2100);
    candidate.increase_votes(-200);
    assert_eq!(candidate.get_votes(), 1900);
}

#[test]
fn test_with_seats() {
    let mut candidate = Candidate { votes: 1000, seats: 50 };
    assert_eq!(candidate.get_seats(), 50);
    candidate.set_seats(100);
    assert_eq!(candidate.get_seats(), 100);
    candidate.increase_seats(10);
    assert_eq!(candidate.get_seats(), 110);
    candidate.increase_seats(-20);
    assert_eq!(candidate.get_seats(), 90);
}
