use coursework::trust::{
    Agent, CheatingAgent, CooperatingAgent, CopycatAgent, Decision, DetectiveAgent, Game,
    GrudgerAgent, RoundOutcome,
};

fn play(game: &mut Game, rounds: usize) -> Vec<RoundOutcome> {
    (0..rounds).map(|_| game.play_round()).collect()
}

#[test]
fn cooperators_gain_two_each_round() {
    let mut game = Game::new(Box::new(CooperatingAgent::new()), Box::new(CooperatingAgent::new()));
    assert_eq!(game.left_score(), 0);
    assert_eq!(game.right_score(), 0);
    let outcomes = play(&mut game, 3);
    assert_eq!(outcomes, vec![RoundOutcome::BothCooperated; 3]);
    assert_eq!(game.left_score(), 6);
    assert_eq!(game.right_score(), 6);
}

#[test]
fn cheater_against_cooperator() {
    let mut game = Game::new(Box::new(CheatingAgent::new()), Box::new(CooperatingAgent::new()));
    let outcomes = play(&mut game, 2);
    assert_eq!(outcomes, vec![RoundOutcome::LeftCheated; 2]);
    assert_eq!(game.left_score(), 6);
    assert_eq!(game.right_score(), -2);
}

#[test]
fn cooperator_against_cheater() {
    let mut game = Game::new(Box::new(CooperatingAgent::default()), Box::new(CheatingAgent::default()));
    assert_eq!(game.play_round(), RoundOutcome::RightCheated);
    assert_eq!(game.left_score(), -1);
    assert_eq!(game.right_score(), 3);
}

#[test]
fn cheaters_gain_nothing() {
    let mut game = Game::new(Box::new(CheatingAgent::new()), Box::new(CheatingAgent::new()));
    assert_eq!(play(&mut game, 4), vec![RoundOutcome::BothCheated; 4]);
    assert_eq!(game.left_score(), 0);
    assert_eq!(game.right_score(), 0);
}

#[test]
fn grudger_cheats_forever_after_being_cheated() {
    let mut game = Game::new(Box::new(GrudgerAgent::new()), Box::new(CheatingAgent::new()));
    let outcomes = play(&mut game, 4);
    assert_eq!(
        outcomes,
        vec![
            RoundOutcome::RightCheated,
            RoundOutcome::BothCheated,
            RoundOutcome::BothCheated,
            RoundOutcome::BothCheated
        ]
    );
    assert_eq!(game.left_score(), -1);
    assert_eq!(game.right_score(), 3);
}

#[test]
fn grudger_keeps_grudge_after_cooperation() {
    let mut grudger = GrudgerAgent::default();
    assert!(grudger.decide(Decision::Cooperate) == Decision::Cooperate);
    assert!(grudger.decide(Decision::Cheat) == Decision::Cheat);
    assert!(grudger.decide(Decision::Cooperate) == Decision::Cheat);
    assert!(grudger.decide(Decision::Cooperate) == Decision::Cheat);
}

#[test]
fn copycat_repeats_the_opponent() {
    let mut copycat = CopycatAgent::new();
    assert!(copycat.decide(Decision::Cheat) == Decision::Cheat);
    assert!(copycat.decide(Decision::Cooperate) == Decision::Cooperate);
    let mut game = Game::new(Box::new(CopycatAgent::default()), Box::new(CheatingAgent::new()));
    assert_eq!(
        play(&mut game, 3),
        vec![RoundOutcome::RightCheated, RoundOutcome::BothCheated, RoundOutcome::BothCheated]
    );
}

#[test]
fn detective_exploits_a_cooperator() {
    let mut game = Game::new(Box::new(DetectiveAgent::new()), Box::new(CooperatingAgent::new()));
    assert_eq!(
        play(&mut game, 6),
        vec![
            RoundOutcome::BothCooperated,
            RoundOutcome::LeftCheated,
            RoundOutcome::BothCooperated,
            RoundOutcome::BothCooperated,
            RoundOutcome::LeftCheated,
            RoundOutcome::LeftCheated,
        ]
    );
    assert_eq!(game.left_score(), 2 + 3 + 2 + 2 + 3 + 3);
    assert_eq!(game.right_score(), 2 - 1 + 2 + 2 - 1 - 1);
}

#[test]
fn detective_copies_a_cheater() {
    let mut game = Game::new(Box::new(DetectiveAgent::default()), Box::new(CheatingAgent::new()));
    assert_eq!(
        play(&mut game, 6),
        vec![
            RoundOutcome::RightCheated,
            RoundOutcome::BothCheated,
            RoundOutcome::RightCheated,
            RoundOutcome::RightCheated,
            RoundOutcome::BothCheated,
            RoundOutcome::BothCheated,
        ]
    );
}

struct Alternating {
    next: Decision,
}

impl Agent for Alternating {
    // A specification item, which a running program never calls.
    fn answer(&self, _told: vstd::seq::Seq<Decision>) -> Decision {
        unreachable!()
    }

    fn decide(&mut self, _decision: Decision) -> Decision {
        let d = self.next;
        self.next = if d == Decision::Cooperate { Decision::Cheat } else { Decision::Cooperate };
        d
    }
}

#[test]
fn game_with_an_agent_of_the_caller() {
    let mut game = Game::new(
        Box::new(Alternating { next: Decision::Cooperate }),
        Box::new(CopycatAgent::new()),
    );
    assert_eq!(
        play(&mut game, 4),
        vec![
            RoundOutcome::BothCooperated,
            RoundOutcome::LeftCheated,
            RoundOutcome::RightCheated,
            RoundOutcome::LeftCheated,
        ]
    );
    assert_eq!(game.left_score(), 2 + 3 - 1 + 3);
    assert_eq!(game.right_score(), 2 - 1 + 3 - 1);
    assert!(game.left_input() == Decision::Cooperate);
    assert!(game.right_input() == Decision::Cheat);
}

#[test]
fn recording_a_round_scores_it() {
    let mut game = Game::new(Box::new(CooperatingAgent::new()), Box::new(CooperatingAgent::new()));
    assert_eq!(game.record_round(Decision::Cheat, Decision::Cooperate), RoundOutcome::LeftCheated);
    assert_eq!(game.left_score(), 3);
    assert_eq!(game.right_score(), -1);
    assert!(game.left_input() == Decision::Cooperate);
    assert!(game.right_input() == Decision::Cheat);
    assert_eq!(game.record_round(Decision::Cooperate, Decision::Cheat), RoundOutcome::RightCheated);
    assert_eq!(game.left_score() + game.right_score(), 4);
}
