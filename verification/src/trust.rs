//! The iterated trust game: two agents repeatedly choose to cooperate or
//! cheat, and the game keeps both scores.
use vstd::prelude::*;

verus! {

/// How a round ended.
#[derive(Clone, Copy, Debug, PartialEq, Eq, Structural)]
pub enum RoundOutcome {
    BothCooperated,
    LeftCheated,
    RightCheated,
    BothCheated,
}

/// What an agent does in a round.
#[derive(PartialEq, Eq, Structural, Clone, Copy, Debug)]
pub enum Decision {
    Cooperate,
    Cheat,
}

/// A player of the game. Each round it is told what its opponent did in
/// the previous round (`Cooperate` before the first round) and answers
/// with its own decision.
pub trait Agent {
    /// What the agent answers if, from now on, it is told the decisions in
    /// `told` (one per round, oldest first): its answer in the round in which
    /// it is told the last of them. Meant for a non-empty `told`.
    spec fn answer(&self, told: Seq<Decision>) -> Decision;

    /// Tells the agent the opponent's last decision and gets its own.
    fn decide(&mut self, decision: Decision) -> (d: Decision)
        ensures
            d == old(self).answer(seq![decision]),
            forall|told: Seq<Decision>|
                told.len() > 0 ==> #[trigger] final(self).answer(told) == old(self).answer(
                    seq![decision] + told,
                ),
    ;
}

/// The outcome of a round in which the left agent chose `left` and the
/// right agent chose `right`.
pub open spec fn outcome_of(left: Decision, right: Decision) -> RoundOutcome {
    match (left, right) {
        (Decision::Cooperate, Decision::Cooperate) => RoundOutcome::BothCooperated,
        (Decision::Cheat, Decision::Cooperate) => RoundOutcome::LeftCheated,
        (Decision::Cooperate, Decision::Cheat) => RoundOutcome::RightCheated,
        (Decision::Cheat, Decision::Cheat) => RoundOutcome::BothCheated,
    }
}

/// Points the left agent gains in a round.
pub open spec fn left_gain(left: Decision, right: Decision) -> int {
    match (left, right) {
        (Decision::Cooperate, Decision::Cooperate) => 2,
        (Decision::Cheat, Decision::Cooperate) => 3,
        (Decision::Cooperate, Decision::Cheat) => -1,
        (Decision::Cheat, Decision::Cheat) => 0,
    }
}

/// Points the right agent gains in a round: the game is symmetric.
pub open spec fn right_gain(left: Decision, right: Decision) -> int {
    left_gain(right, left)
}

/// Points the left agent gains in a round that ended with `o`.
pub open spec fn left_points(o: RoundOutcome) -> int {
    match o {
        RoundOutcome::BothCooperated => 2,
        RoundOutcome::LeftCheated => 3,
        RoundOutcome::RightCheated => -1,
        RoundOutcome::BothCheated => 0,
    }
}

/// Points the right agent gains in a round that ended with `o`.
pub open spec fn right_points(o: RoundOutcome) -> int {
    match o {
        RoundOutcome::BothCooperated => 2,
        RoundOutcome::LeftCheated => -1,
        RoundOutcome::RightCheated => 3,
        RoundOutcome::BothCheated => 0,
    }
}

/// The left agent's points over rounds that ended with `os`.
pub open spec fn left_total(os: Seq<RoundOutcome>) -> int
    decreases os.len(),
{
    if os.len() == 0 {
        0
    } else {
        left_total(os.drop_last()) + left_points(os.last())
    }
}

/// The right agent's points over rounds that ended with `os`.
pub open spec fn right_total(os: Seq<RoundOutcome>) -> int
    decreases os.len(),
{
    if os.len() == 0 {
        0
    } else {
        right_total(os.drop_last()) + right_points(os.last())
    }
}

/// `after` is `before` with one more round played, which ended with `o`:
/// the outcome is that of the two decisions, and each score gained its
/// points.
pub open spec fn round_played(before: Game, after: Game, o: RoundOutcome) -> bool {
    &&& o == outcome_of(after.last_left(), after.last_right())
    &&& after.spec_left_score() == before.spec_left_score() + left_gain(after.last_left(), after.last_right())
    &&& after.spec_right_score() == before.spec_right_score() + right_gain(after.last_left(), after.last_right())
}

/// Over successive rounds from a new game, each score is the sum of the
/// points its agent gained in the rounds played: `games[k + 1]` is
/// `games[k]` after the round that ended with `outcomes[k]`.
pub proof fn lemma_score_totals(games: Seq<Game>, outcomes: Seq<RoundOutcome>)
    requires
        games.len() == outcomes.len() + 1,
        games[0].spec_left_score() == 0,
        games[0].spec_right_score() == 0,
        forall|k: int| 0 <= k < outcomes.len() ==> round_played(#[trigger] games[k], games[k + 1], outcomes[k]),
    ensures
        games.last().spec_left_score() == left_total(outcomes),
        games.last().spec_right_score() == right_total(outcomes),
    decreases outcomes.len(),
{
    if outcomes.len() > 0 {
        let n = outcomes.len() - 1;
        lemma_score_totals(games.drop_last(), outcomes.drop_last());
        assert(games.drop_last().last() == games[n]);
        assert(round_played(games[n], games[n + 1], outcomes[n]));
        assert(outcomes.drop_last() =~= outcomes.subrange(0, n));
    }
}

/// A game between two agents.
pub struct Game {
    left_current_score: i32,
    right_current_score: i32,
    left_agent: Box<dyn Agent>,
    right_agent: Box<dyn Agent>,
    last_decision_l: Decision,
    last_decision_r: Decision,
}

impl Game {
    /// Score of the left agent.
    pub closed spec fn spec_left_score(&self) -> int {
        self.left_current_score as int
    }

    /// Score of the right agent.
    pub closed spec fn spec_right_score(&self) -> int {
        self.right_current_score as int
    }

    /// What the left agent did in the last round (`Cooperate` before the first).
    pub closed spec fn last_left(&self) -> Decision {
        self.last_decision_l
    }

    /// What the right agent did in the last round (`Cooperate` before the first).
    pub closed spec fn last_right(&self) -> Decision {
        self.last_decision_r
    }

    /// What the left agent answers if told the decisions in `told`.
    pub closed spec fn left_answer(&self, told: Seq<Decision>) -> Decision {
        self.left_agent.answer(told)
    }

    /// What the right agent answers if told the decisions in `told`.
    pub closed spec fn right_answer(&self, told: Seq<Decision>) -> Decision {
        self.right_agent.answer(told)
    }

    /// Scores that a round with the given decisions leaves behind fit in `i32`.
    pub open spec fn round_fits(&self) -> bool {
        &&& i32::MIN + 1 <= self.spec_left_score() <= i32::MAX - 3
        &&& i32::MIN + 1 <= self.spec_right_score() <= i32::MAX - 3
    }

    /// A game between `left` and `right`, before its first round: both
    /// scores are zero and each agent will first be told `Cooperate`.
    pub fn new(left: Box<dyn Agent>, right: Box<dyn Agent>) -> (game: Self)
        ensures
            forall|told: Seq<Decision>| #[trigger] game.left_answer(told) == left.answer(told),
            forall|told: Seq<Decision>| #[trigger] game.right_answer(told) == right.answer(told),
            game.spec_left_score() == 0,
            game.spec_right_score() == 0,
            game.last_left() == Decision::Cooperate,
            game.last_right() == Decision::Cooperate,
    {
        let mut left = left;
        let mut right = right;
        // Built with placeholder agents, which the given ones then replace.
        let mut game = Game {
            left_current_score: 0,
            right_current_score: 0,
            left_agent: Box::new(CooperatingAgent {  }),
            right_agent: Box::new(CooperatingAgent {  }),
            last_decision_l: Decision::Cooperate,
            last_decision_r: Decision::Cooperate,
        };
        std::mem::swap(&mut game.left_agent, &mut left);
        std::mem::swap(&mut game.right_agent, &mut right);
        game
    }

    pub fn left_score(&self) -> (score: i32)
        ensures
            score == self.spec_left_score(),
    {
        self.left_current_score
    }

    pub fn right_score(&self) -> (score: i32)
        ensures
            score == self.spec_right_score(),
    {
        self.right_current_score
    }

    /// What the left agent is told at the start of the next round: the
    /// right agent's last decision.
    pub fn left_input(&self) -> (d: Decision)
        ensures
            d == self.last_right(),
    {
        self.last_decision_r
    }

    /// What the right agent is told at the start of the next round: the
    /// left agent's last decision.
    pub fn right_input(&self) -> (d: Decision)
        ensures
            d == self.last_left(),
    {
        self.last_decision_l
    }

    /// Scores a round in which the agents decided `left` and `right`.
    pub fn record_round(&mut self, left: Decision, right: Decision) -> (outcome: RoundOutcome)
        requires
            old(self).round_fits(),
        ensures
            outcome == outcome_of(left, right),
            final(self).spec_left_score() == old(self).spec_left_score() + left_gain(left, right),
            final(self).spec_right_score() == old(self).spec_right_score() + right_gain(left, right),
            final(self).last_left() == left,
            final(self).last_right() == right,
            forall|told: Seq<Decision>| #[trigger] final(self).left_answer(told) == old(self).left_answer(told),
            forall|told: Seq<Decision>| #[trigger] final(self).right_answer(told) == old(self).right_answer(told),
    {
        match (left, right) {
            (Decision::Cooperate, Decision::Cooperate) => {
                self.last_decision_l = Decision::Cooperate;
                self.last_decision_r = Decision::Cooperate;
                self.left_current_score += 2;
                self.right_current_score += 2;
                RoundOutcome::BothCooperated
            },
            (Decision::Cheat, Decision::Cheat) => {
                self.last_decision_l = Decision::Cheat;
                self.last_decision_r = Decision::Cheat;
                RoundOutcome::BothCheated
            },
            (Decision::Cooperate, Decision::Cheat) => {
                self.last_decision_l = Decision::Cooperate;
                self.last_decision_r = Decision::Cheat;
                self.left_current_score -= 1;
                self.right_current_score += 3;
                RoundOutcome::RightCheated
            },
            (Decision::Cheat, Decision::Cooperate) => {
                self.last_decision_l = Decision::Cheat;
                self.last_decision_r = Decision::Cooperate;
                self.left_current_score += 3;
                self.right_current_score -= 1;
                RoundOutcome::LeftCheated
            },
        }
    }

    /// Plays one round: the left agent is told the right agent's last
    /// decision, the right agent the left one's, and the round is scored
    /// by their answers.
    pub fn play_round(&mut self) -> (outcome: RoundOutcome)
        requires
            old(self).round_fits(),
        ensures
            round_played(*old(self), *final(self), outcome),
            outcome == outcome_of(final(self).last_left(), final(self).last_right()),
            final(self).spec_left_score() == old(self).spec_left_score() + left_gain(
                final(self).last_left(),
                final(self).last_right(),
            ),
            final(self).spec_right_score() == old(self).spec_right_score() + right_gain(
                final(self).last_left(),
                final(self).last_right(),
            ),
            final(self).last_left() == old(self).left_answer(seq![old(self).last_right()]),
            final(self).last_right() == old(self).right_answer(seq![old(self).last_left()]),
            forall|told: Seq<Decision>|
                told.len() > 0 ==> #[trigger] final(self).left_answer(told) == old(self).left_answer(
                    seq![old(self).last_right()] + told,
                ),
            forall|told: Seq<Decision>|
                told.len() > 0 ==> #[trigger] final(self).right_answer(told) == old(self).right_answer(
                    seq![old(self).last_left()] + told,
                ),
    {
        let left_decision = self.left_agent.decide(self.last_decision_r);
        let right_decision = self.right_agent.decide(self.last_decision_l);
        self.record_round(left_decision, right_decision)
    }
}

/// Every round changes the sum of both scores by 4 when both cooperate,
/// by 2 when exactly one cheats and by 0 when both cheat; in no round does
/// a cheater lose points.
pub proof fn lemma_round_totals(left: Decision, right: Decision)
    ensures
        left_gain(left, right) + right_gain(left, right) == match outcome_of(left, right) {
            RoundOutcome::BothCooperated => 4int,
            RoundOutcome::LeftCheated => 2int,
            RoundOutcome::RightCheated => 2int,
            RoundOutcome::BothCheated => 0int,
        },
        left == Decision::Cheat ==> left_gain(left, right) >= 0,
        right == Decision::Cheat ==> right_gain(left, right) >= 0,
        left_gain(left, right) == right_gain(right, left),
{
}

/// An agent that always cheats.
pub struct CheatingAgent {}

impl Agent for CheatingAgent {
    open spec fn answer(&self, told: Seq<Decision>) -> Decision {
        Decision::Cheat
    }

    fn decide(&mut self, _decision: Decision) -> (d: Decision)
        ensures
            d == Decision::Cheat,
    {
        Decision::Cheat
    }
}

impl CheatingAgent {
    pub fn new() -> (agent: Self)
        ensures
            agent == (CheatingAgent {  }),
    {
        CheatingAgent {  }
    }
}

/// An agent that always cooperates.
pub struct CooperatingAgent {}

impl Agent for CooperatingAgent {
    open spec fn answer(&self, told: Seq<Decision>) -> Decision {
        Decision::Cooperate
    }

    fn decide(&mut self, _decision: Decision) -> (d: Decision)
        ensures
            d == Decision::Cooperate,
    {
        Decision::Cooperate
    }
}

impl CooperatingAgent {
    pub fn new() -> (agent: Self)
        ensures
            agent == (CooperatingAgent {  }),
    {
        CooperatingAgent {  }
    }
}

/// An agent that cooperates until its opponent cheats once, and cheats
/// from then on.
pub struct GrudgerAgent {
    cheated: bool,
}

impl GrudgerAgent {
    /// Whether the opponent has ever cheated.
    pub closed spec fn holds_grudge(&self) -> bool {
        self.cheated
    }

    pub fn new() -> (agent: Self)
        ensures
            !agent.holds_grudge(),
    {
        GrudgerAgent { cheated: false }
    }
}

impl Agent for GrudgerAgent {
    /// It cheats once it has been cheated, earlier or in what it is told.
    open spec fn answer(&self, told: Seq<Decision>) -> Decision {
        if self.holds_grudge() || told.contains(Decision::Cheat) {
            Decision::Cheat
        } else {
            Decision::Cooperate
        }
    }

    fn decide(&mut self, decision: Decision) -> (d: Decision)
        ensures
            final(self).holds_grudge() == (old(self).holds_grudge() || decision == Decision::Cheat),
            d == (if final(self).holds_grudge() {
                Decision::Cheat
            } else {
                Decision::Cooperate
            }),
    {
        if decision == Decision::Cheat {
            self.cheated = true
        }
        proof {
            assert forall|told: Seq<Decision>| told.len() > 0 implies #[trigger] self.answer(told)
                == old(self).answer(seq![decision] + told) by {
                let all = seq![decision] + told;
                assert(all[0] == decision);
                if told.contains(Decision::Cheat) {
                    let k = choose|k: int| 0 <= k < told.len() && told[k] == Decision::Cheat;
                    assert(all[k + 1] == told[k]);
                }
                if all.contains(Decision::Cheat) && decision != Decision::Cheat {
                    let k = choose|k: int| 0 <= k < all.len() && all[k] == Decision::Cheat;
                    assert(told[k - 1] == all[k]);
                }
            }
            assert(seq![decision].contains(Decision::Cheat) == (decision == Decision::Cheat)) by {
                if decision == Decision::Cheat {
                    assert(seq![decision][0] == decision);
                }
            }
        }
        if self.cheated {
            Decision::Cheat
        } else {
            Decision::Cooperate
        }
    }
}

/// An agent that repeats what its opponent did in the previous round.
pub struct CopycatAgent {
    last_decision: Decision,
}

impl CopycatAgent {
    /// The opponent's decision it last saw.
    pub closed spec fn last_seen(&self) -> Decision {
        self.last_decision
    }

    pub fn new() -> (agent: Self)
        ensures
            agent.last_seen() == Decision::Cooperate,
    {
        CopycatAgent { last_decision: Decision::Cooperate }
    }
}

impl Agent for CopycatAgent {
    /// It answers with the latest decision it is told.
    open spec fn answer(&self, told: Seq<Decision>) -> Decision {
        told.last()
    }

    fn decide(&mut self, decision: Decision) -> (d: Decision)
        ensures
            d == decision,
            final(self).last_seen() == decision,
    {
        self.last_decision = decision;
        match self.last_decision {
            Decision::Cooperate => Decision::Cooperate,
            Decision::Cheat => Decision::Cheat,
        }
    }
}

/// An agent that opens with cooperate, cheat, cooperate, cooperate; then
/// cheats forever if its opponent never cheated in the rounds it looked at,
/// and otherwise copies its opponent.
pub struct DetectiveAgent {
    past_decisions: Vec<Decision>,
    opponent_cheated: i32,
    last_decision: Decision,
}

/// The opening moves, in the order in which they are played.
pub open spec fn detective_opening() -> Seq<Decision> {
    seq![Decision::Cooperate, Decision::Cheat, Decision::Cooperate, Decision::Cooperate]
}

/// What a detective answers when told `told`, from the state with the
/// opening moves `opening` still to play, `caught` whether it counted a cheat,
/// and `last` the latest decision it was told: each round first counts a cheat
/// if the decision told in the round before was one.
pub open spec fn detective_answer(opening: Seq<Decision>, caught: bool, last: Decision, told: Seq<Decision>) -> Decision
    decreases told.len(),
{
    if told.len() == 0 {
        Decision::Cooperate
    } else {
        let caught_now = caught || last == Decision::Cheat;
        if told.len() == 1 {
            if opening.len() > 0 {
                opening[0]
            } else if caught_now {
                told[0]
            } else {
                Decision::Cheat
            }
        } else {
            detective_answer(
                if opening.len() > 0 { opening.drop_first() } else { opening },
                caught_now,
                told[0],
                told.drop_first(),
            )
        }
    }
}

/// From any state: while opening moves are left the detective plays them;
/// afterwards it copies the latest decision it is told if it counted a cheat
/// or was told one in a round before, and cheats otherwise.
proof fn lemma_detective_answer(opening: Seq<Decision>, caught: bool, last: Decision, told: Seq<Decision>)
    requires
        told.len() > 0,
    ensures
        ({
            let n = told.len() - 1;
            detective_answer(opening, caught, last, told) == if n < opening.len() {
                opening[n]
            } else if caught || last == Decision::Cheat || exists|j: int| 0 <= j < n && told[j] == Decision::Cheat {
                told[n]
            } else {
                Decision::Cheat
            }
        }),
    decreases told.len(),
{
    if told.len() > 1 {
        let rest = told.drop_first();
        let opening2 = if opening.len() > 0 { opening.drop_first() } else { opening };
        lemma_detective_answer(opening2, caught || last == Decision::Cheat, told[0], rest);
        let n = told.len() - 1;
        assert(rest[n - 1] == told[n]);
        if exists|j: int| 0 <= j < n && told[j] == Decision::Cheat {
            let j = choose|j: int| 0 <= j < n && told[j] == Decision::Cheat;
            if j > 0 {
                assert(rest[j - 1] == told[j]);
            }
        }
        if exists|j: int| 0 <= j < n - 1 && rest[j] == Decision::Cheat {
            let j = choose|j: int| 0 <= j < n - 1 && rest[j] == Decision::Cheat;
            assert(told[j + 1] == rest[j]);
        }
    }
}

/// A grudger that holds no grudge yet, told the decisions `told` one per
/// round, cheats in the latest round exactly when it has been told `Cheat`
/// in that round or an earlier one.
pub proof fn lemma_grudger_run(agent: GrudgerAgent, told: Seq<Decision>)
    requires
        !agent.holds_grudge(),
        told.len() > 0,
    ensures
        agent.answer(told) == if exists|j: int| 0 <= j < told.len() && told[j] == Decision::Cheat {
            Decision::Cheat
        } else {
            Decision::Cooperate
        },
{
    if exists|j: int| 0 <= j < told.len() && told[j] == Decision::Cheat {
        let j = choose|j: int| 0 <= j < told.len() && told[j] == Decision::Cheat;
        assert(told.contains(Decision::Cheat));
    }
}

/// A copycat answers each round with the decision it is told in it.
pub proof fn lemma_copycat_run(agent: CopycatAgent, told: Seq<Decision>)
    requires
        told.len() > 0,
    ensures
        agent.answer(told) == told[told.len() - 1],
{
}

/// The cheater always cheats and the cooperator always cooperates.
pub proof fn lemma_constant_agents(cheater: CheatingAgent, cooperator: CooperatingAgent, told: Seq<Decision>)
    ensures
        cheater.answer(told) == Decision::Cheat,
        cooperator.answer(told) == Decision::Cooperate,
{
}

/// A new detective, told the decisions `told` one per round, answers in
/// round `n` (from 0) with its opening move `n` while `n < 4`; afterwards it
/// copies what it is told if it was told `Cheat` in an earlier round, and
/// cheats otherwise.
pub proof fn lemma_detective_run(agent: DetectiveAgent, told: Seq<Decision>)
    requires
        agent.opening_left() == detective_opening(),
        !agent.caught_cheating(),
        agent.last_seen() == Decision::Cooperate,
        told.len() > 0,
    ensures
        ({
            let n = told.len() - 1;
            agent.answer(told) == if n < 4 {
                detective_opening()[n]
            } else if exists|j: int| 0 <= j < n && told[j] == Decision::Cheat {
                told[n]
            } else {
                Decision::Cheat
            }
        }),
{
    lemma_detective_answer(detective_opening(), false, Decision::Cooperate, told);
}

impl DetectiveAgent {
    /// The opening moves still to be played, next one first.
    pub closed spec fn opening_left(&self) -> Seq<Decision> {
        self.past_decisions@.reverse()
    }

    /// Whether a cheat was counted: the decisions it was told, all but the
    /// latest one.
    pub closed spec fn caught_cheating(&self) -> bool {
        self.opponent_cheated != 0
    }

    /// The latest decision it was told.
    pub closed spec fn last_seen(&self) -> Decision {
        self.last_decision
    }

    #[verifier::type_invariant]
    closed spec fn counts_up(&self) -> bool {
        self.opponent_cheated >= 0
    }

    pub fn new() -> (agent: Self)
        ensures
            agent.opening_left() == detective_opening(),
            !agent.caught_cheating(),
            agent.last_seen() == Decision::Cooperate,
    {
        let agent = DetectiveAgent {
            past_decisions: vec![Decision::Cooperate, Decision::Cooperate, Decision::Cheat, Decision::Cooperate],
            opponent_cheated: 0,
            last_decision: Decision::Cooperate,
        };
        assert(agent.opening_left() =~= detective_opening());
        agent
    }
}

impl Agent for DetectiveAgent {
    open spec fn answer(&self, told: Seq<Decision>) -> Decision {
        detective_answer(self.opening_left(), self.caught_cheating(), self.last_seen(), told)
    }

    fn decide(&mut self, decision: Decision) -> (d: Decision)
        ensures
            final(self).caught_cheating() == (old(self).caught_cheating() || old(self).last_seen()
                == Decision::Cheat),
            final(self).last_seen() == decision,
            old(self).opening_left().len() > 0 ==> d == old(self).opening_left()[0]
                && final(self).opening_left() == old(self).opening_left().drop_first(),
            old(self).opening_left().len() == 0 ==> d == (if final(self).caught_cheating() { decision } else { Decision::Cheat })
                && final(self).opening_left().len() == 0,
    {
        proof {
            use_type_invariant(&*self);
        }
        if self.last_decision == Decision::Cheat && self.opponent_cheated < i32::MAX {
            self.opponent_cheated += 1;
        }
        self.last_decision = decision;
        let ghost old_script = self.past_decisions@;
        let mut script: Vec<Decision> = Vec::new();
        std::mem::swap(&mut script, &mut self.past_decisions);
        let next = script.pop();
        self.past_decisions = script;
        proof {
            assert forall|told: Seq<Decision>| told.len() > 0 implies #[trigger] self.answer(told)
                == old(self).answer(seq![decision] + told) by {
                let all = seq![decision] + told;
                assert(all.drop_first() =~= told);
                assert(all[0] == decision);
                if old_script.len() > 0 {
                    assert(self.past_decisions@.reverse() =~= old_script.reverse().drop_first());
                }
            }
        }
        match next {
            Some(decision) => {
                assert(self.past_decisions@.reverse() =~= old_script.reverse().drop_first());
                decision
            },
            None => {
                if self.opponent_cheated == 0 {
                    Decision::Cheat
                } else {
                    self.last_decision
                }
            },
        }
    }
}

impl Default for CopycatAgent {
    fn default() -> (agent: Self)
        ensures
            agent.last_seen() == Decision::Cooperate,
    {
        Self::new()
    }
}

impl Default for CooperatingAgent {
    fn default() -> (agent: Self)
        ensures
            agent == (CooperatingAgent {  }),
    {
        Self::new()
    }
}

impl Default for CheatingAgent {
    fn default() -> (agent: Self)
        ensures
            agent == (CheatingAgent {  }),
    {
        Self::new()
    }
}

impl Default for GrudgerAgent {
    fn default() -> (agent: Self)
        ensures
            !agent.holds_grudge(),
    {
        Self::new()
    }
}

impl Default for DetectiveAgent {
    fn default() -> (agent: Self)
        ensures
            agent.opening_left() == detective_opening(),
            !agent.caught_cheating(),
            agent.last_seen() == Decision::Cooperate,
    {
        Self::new()
    }
}

} // verus!
