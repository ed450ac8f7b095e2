//! The day-2 solver: scoring a rock-paper-scissors strategy guide under two
//! readings of its second column.

use vstd::prelude::*;

use crate::cmd::{ascii_ieq, split_chars, split_str, str_ieq};
use crate::day::SolverError;
use crate::digits::dec_str;

verus! {

/// Ghost model of a day-2 error.
pub enum ErrorModel {
    InvalidPlay(Seq<char>),
    InvalidRound(Seq<char>),
}

/// Errors of reading the strategy guide.
#[derive(Debug)]
pub enum Error {
    /// A column entry that names no play.
    InvalidPlay(String),
    /// A line that does not hold two columns.
    InvalidRound(String),
}

impl View for Error {
    type V = ErrorModel;

    open spec fn view(&self) -> ErrorModel {
        match self {
            Error::InvalidPlay(s) => ErrorModel::InvalidPlay(s@),
            Error::InvalidRound(s) => ErrorModel::InvalidRound(s@),
        }
    }
}

/// A play of rock, paper or scissors.
#[derive(Debug, Clone, Copy, PartialEq, Eq, Structural)]
pub enum Deck {
    Rock,
    Paper,
    Scissor,
}

/// The outcome of one round.
#[derive(Debug, Clone, Copy, PartialEq, Eq, Structural)]
pub enum Outcome {
    Win,
    Lost,
    Draw,
}

/// The shape score of a play.
pub open spec fn deck_score(d: Deck) -> int {
    match d {
        Deck::Rock => 1,
        Deck::Paper => 2,
        Deck::Scissor => 3,
    }
}

/// The outcome score of a round.
pub open spec fn outcome_score(o: Outcome) -> int {
    match o {
        Outcome::Win => 6,
        Outcome::Lost => 0,
        Outcome::Draw => 3,
    }
}

/// What parsing a play column yields: `a`/`x` rock, `b`/`y` paper, `c`/`z`
/// scissors, case-insensitively.
pub open spec fn deck_parse(s: Seq<char>) -> Result<Deck, ErrorModel> {
    if ascii_ieq(s, "a"@) || ascii_ieq(s, "x"@) {
        Result::Ok(Deck::Rock)
    } else if ascii_ieq(s, "b"@) || ascii_ieq(s, "y"@) {
        Result::Ok(Deck::Paper)
    } else if ascii_ieq(s, "c"@) || ascii_ieq(s, "z"@) {
        Result::Ok(Deck::Scissor)
    } else {
        Result::Err(ErrorModel::InvalidPlay(s))
    }
}

/// What parsing an outcome column yields: `x` a loss, `y` a draw, `z` a
/// win, case-insensitively.
pub open spec fn outcome_parse(s: Seq<char>) -> Result<Outcome, ErrorModel> {
    if ascii_ieq(s, "x"@) {
        Result::Ok(Outcome::Lost)
    } else if ascii_ieq(s, "y"@) {
        Result::Ok(Outcome::Draw)
    } else if ascii_ieq(s, "z"@) {
        Result::Ok(Outcome::Win)
    } else {
        Result::Err(ErrorModel::InvalidPlay(s))
    }
}

impl Deck {
    /// The shape score: rock one, paper two, scissors three.
    pub fn score(&self) -> (r: usize)
        ensures
            r == deck_score(*self),
    {
        match self {
            Deck::Rock => 1,
            Deck::Paper => 2,
            Deck::Scissor => 3,
        }
    }

    /// Reads one play column.
    pub fn parse(s: &str) -> (r: Result<Deck, Error>)
        ensures
            match r {
                Result::Ok(d) => deck_parse(s@) == Result::<Deck, ErrorModel>::Ok(d),
                Result::Err(e) => deck_parse(s@) == Result::<Deck, ErrorModel>::Err(e@),
            },
    {
        if str_ieq(s, "a") || str_ieq(s, "x") {
            Result::Ok(Deck::Rock)
        } else if str_ieq(s, "b") || str_ieq(s, "y") {
            Result::Ok(Deck::Paper)
        } else if str_ieq(s, "c") || str_ieq(s, "z") {
            Result::Ok(Deck::Scissor)
        } else {
            Result::Err(Error::InvalidPlay(s.to_owned()))
        }
    }
}

impl Outcome {
    /// The outcome score: a win six, a draw three, a loss nothing.
    pub fn score(&self) -> (r: usize)
        ensures
            r == outcome_score(*self),
    {
        match self {
            Outcome::Win => 6,
            Outcome::Lost => 0,
            Outcome::Draw => 3,
        }
    }

    /// Reads one outcome column.
    pub fn parse(s: &str) -> (r: Result<Outcome, Error>)
        ensures
            match r {
                Result::Ok(o) => outcome_parse(s@) == Result::<Outcome, ErrorModel>::Ok(o),
                Result::Err(e) => outcome_parse(s@) == Result::<Outcome, ErrorModel>::Err(e@),
            },
    {
        if str_ieq(s, "x") {
            Result::Ok(Outcome::Lost)
        } else if str_ieq(s, "y") {
            Result::Ok(Outcome::Draw)
        } else if str_ieq(s, "z") {
            Result::Ok(Outcome::Win)
        } else {
            Result::Err(Error::InvalidPlay(s.to_owned()))
        }
    }
}

/// One guide line under some reading: it scores a round, is bounded, and is
/// read from a line of two columns.
pub trait Round: Sized {
    /// The score this round yields.
    spec fn play_spec(&self) -> int;

    /// What parsing one guide line yields for this reading.
    spec fn parse_spec(s: Seq<char>) -> Result<Self, ErrorModel>;

    /// Every round scores between zero and nine.
    proof fn play_spec_bounds(&self)
        ensures
            0 <= self.play_spec() <= 9,
    ;

    /// Scores the round.
    fn play(&self) -> (r: usize)
        ensures
            r == self.play_spec(),
    ;

    /// Reads one guide line.
    fn parse_line(s: &str) -> (r: Result<Self, Error>)
        ensures
            match r {
                Result::Ok(v) => Self::parse_spec(s@) == Result::<Self, ErrorModel>::Ok(v),
                Result::Err(e) => Self::parse_spec(s@) == Result::<Self, ErrorModel>::Err(e@),
            },
    ;
}

/// The first reading: both columns are plays, the opponent's then ours.
#[derive(Debug, Clone, Copy)]
pub struct Round1(pub Deck, pub Deck);

/// The second reading: the opponent's play, then the outcome to arrange.
#[derive(Debug, Clone, Copy)]
pub struct Round2(pub Deck, pub Outcome);

/// The outcome of our play against the opponent's.
pub open spec fn round1_eval(opponent: Deck, ours: Deck) -> Outcome {
    match (ours, opponent) {
        (Deck::Rock, Deck::Scissor) => Outcome::Win,
        (Deck::Rock, Deck::Paper) => Outcome::Lost,
        (Deck::Paper, Deck::Rock) => Outcome::Win,
        (Deck::Paper, Deck::Scissor) => Outcome::Lost,
        (Deck::Scissor, Deck::Paper) => Outcome::Win,
        (Deck::Scissor, Deck::Rock) => Outcome::Lost,
        _ => Outcome::Draw,
    }
}

/// The play that arranges the wanted outcome against the opponent's.
pub open spec fn round2_pick(opponent: Deck, wanted: Outcome) -> Deck {
    match (opponent, wanted) {
        (Deck::Rock, Outcome::Win) => Deck::Paper,
        (Deck::Rock, Outcome::Lost) => Deck::Scissor,
        (Deck::Rock, Outcome::Draw) => Deck::Rock,
        (Deck::Paper, Outcome::Win) => Deck::Scissor,
        (Deck::Paper, Outcome::Lost) => Deck::Rock,
        (Deck::Paper, Outcome::Draw) => Deck::Paper,
        (Deck::Scissor, Outcome::Win) => Deck::Rock,
        (Deck::Scissor, Outcome::Lost) => Deck::Paper,
        (Deck::Scissor, Outcome::Draw) => Deck::Scissor,
    }
}

/// What parsing a two-column line yields, given a reading of each column.
pub open spec fn two_columns(s: Seq<char>) -> Result<(Seq<char>, Seq<char>), ErrorModel> {
    let parts = split_chars(s, ' ');
    if parts.len() < 2 {
        Result::Err(ErrorModel::InvalidRound(s))
    } else {
        Result::Ok((parts[0], parts[1]))
    }
}

/// Reads the first two space-separated columns of a line; further columns
/// are ignored, and a line of fewer than two is rejected.
fn parse_columns(s: &str) -> (r: Result<(String, String), Error>)
    ensures
        match r {
            Result::Ok(c) => two_columns(s@) == Result::<(Seq<char>, Seq<char>), ErrorModel>::Ok(
                (c.0@, c.1@),
            ),
            Result::Err(e) => two_columns(s@) == Result::<
                (Seq<char>, Seq<char>),
                ErrorModel,
            >::Err(e@),
        },
{
    let mut parts = split_str(s, ' ');
    if parts.len() < 2 {
        return Result::Err(Error::InvalidRound(s.to_owned()));
    }
    proof {
        assert(parts@[0]@ == parts.deep_view()[0]);
        assert(parts@[1]@ == parts.deep_view()[1]);
    }
    let second = parts.remove(1);
    let first = parts.remove(0);
    Result::Ok((first, second))
}

impl Round1 {
    /// The outcome of this round for us.
    pub fn eval(&self) -> (r: Outcome)
        ensures
            r == round1_eval(self.0, self.1),
    {
        match (&self.1, &self.0) {
            (Deck::Rock, Deck::Scissor) => Outcome::Win,
            (Deck::Rock, Deck::Paper) => Outcome::Lost,
            (Deck::Paper, Deck::Rock) => Outcome::Win,
            (Deck::Paper, Deck::Scissor) => Outcome::Lost,
            (Deck::Scissor, Deck::Paper) => Outcome::Win,
            (Deck::Scissor, Deck::Rock) => Outcome::Lost,
            _ => Outcome::Draw,
        }
    }
}

impl Round for Round1 {
    open spec fn play_spec(&self) -> int {
        outcome_score(round1_eval(self.0, self.1)) + deck_score(self.1)
    }

    open spec fn parse_spec(s: Seq<char>) -> Result<Round1, ErrorModel> {
        match two_columns(s) {
            Result::Err(e) => Result::Err(e),
            Result::Ok(c) => match deck_parse(c.0) {
                Result::Err(e) => Result::Err(e),
                Result::Ok(d1) => match deck_parse(c.1) {
                    Result::Err(e) => Result::Err(e),
                    Result::Ok(d2) => Result::Ok(Round1(d1, d2)),
                },
            },
        }
    }

    proof fn play_spec_bounds(&self) {
    }

    fn play(&self) -> (r: usize) {
        let outcome = self.eval();
        outcome.score() + self.1.score()
    }

    fn parse_line(s: &str) -> (r: Result<Round1, Error>) {
        let (first, second) = match parse_columns(s) {
            Result::Ok(c) => c,
            Result::Err(e) => {
                return Result::Err(e);
            },
        };
        let d1 = match Deck::parse(first.as_str()) {
            Result::Ok(d) => d,
            Result::Err(e) => {
                return Result::Err(e);
            },
        };
        let d2 = match Deck::parse(second.as_str()) {
            Result::Ok(d) => d,
            Result::Err(e) => {
                return Result::Err(e);
            },
        };
        Result::Ok(Round1(d1, d2))
    }
}

impl Round for Round2 {
    open spec fn play_spec(&self) -> int {
        outcome_score(self.1) + deck_score(round2_pick(self.0, self.1))
    }

    open spec fn parse_spec(s: Seq<char>) -> Result<Round2, ErrorModel> {
        match two_columns(s) {
            Result::Err(e) => Result::Err(e),
            Result::Ok(c) => match deck_parse(c.0) {
                Result::Err(e) => Result::Err(e),
                Result::Ok(d) => match outcome_parse(c.1) {
                    Result::Err(e) => Result::Err(e),
                    Result::Ok(o) => Result::Ok(Round2(d, o)),
                },
            },
        }
    }

    proof fn play_spec_bounds(&self) {
    }

    fn play(&self) -> (r: usize) {
        let should_play = match (&self.0, &self.1) {
            (Deck::Rock, Outcome::Win) => Deck::Paper,
            (Deck::Rock, Outcome::Lost) => Deck::Scissor,
            (Deck::Rock, Outcome::Draw) => Deck::Rock,
            (Deck::Paper, Outcome::Win) => Deck::Scissor,
            (Deck::Paper, Outcome::Lost) => Deck::Rock,
            (Deck::Paper, Outcome::Draw) => Deck::Paper,
            (Deck::Scissor, Outcome::Win) => Deck::Rock,
            (Deck::Scissor, Outcome::Lost) => Deck::Paper,
            (Deck::Scissor, Outcome::Draw) => Deck::Scissor,
        };
        self.1.score() + should_play.score()
    }

    fn parse_line(s: &str) -> (r: Result<Round2, Error>) {
        let (first, second) = match parse_columns(s) {
            Result::Ok(c) => c,
            Result::Err(e) => {
                return Result::Err(e);
            },
        };
        let d = match Deck::parse(first.as_str()) {
            Result::Ok(d) => d,
            Result::Err(e) => {
                return Result::Err(e);
            },
        };
        let o = match Outcome::parse(second.as_str()) {
            Result::Ok(o) => o,
            Result::Err(e) => {
                return Result::Err(e);
            },
        };
        Result::Ok(Round2(d, o))
    }
}

/// The total score of a sequence of rounds.
pub open spec fn sum_plays<R: Round>(rs: Seq<R>) -> int
    decreases rs.len(),
{
    if rs.len() == 0 {
        0
    } else {
        rs[0].play_spec() + sum_plays(rs.drop_first())
    }
}

pub proof fn lemma_sum_plays_bounds<R: Round>(rs: Seq<R>)
    ensures
        0 <= sum_plays(rs) <= 9 * rs.len(),
    decreases rs.len(),
{
    if rs.len() > 0 {
        rs[0].play_spec_bounds();
        lemma_sum_plays_bounds(rs.drop_first());
    }
}

/// What parsing every guide line yields: the rounds in order, or the first
/// line's error.
pub open spec fn rounds_parse<R: Round>(lines: Seq<Seq<char>>) -> Result<Seq<R>, ErrorModel>
    decreases lines.len(),
{
    if lines.len() == 0 {
        Result::Ok(Seq::empty())
    } else {
        match R::parse_spec(lines[0]) {
            Result::Err(e) => Result::Err(e),
            Result::Ok(v) => match rounds_parse::<R>(lines.drop_first()) {
                Result::Err(e) => Result::Err(e),
                Result::Ok(rest) => Result::Ok(seq![v] + rest),
            },
        }
    }
}

/// A parsed strategy guide: the rounds, in line order.
#[derive(Debug)]
pub struct StrategyGuide<R: Round>(pub Vec<R>);

impl<R: Round> StrategyGuide<R> {
    /// Reads every line of the guide, short-circuiting on the first error.
    #[verifier::loop_isolation(false)]
    pub fn from_lines(lines: &Vec<String>) -> (r: Result<StrategyGuide<R>, Error>)
        ensures
            match r {
                Result::Ok(g) => rounds_parse::<R>(lines.deep_view()) == Result::<
                    Seq<R>,
                    ErrorModel,
                >::Ok(g.0@),
                Result::Err(e) => rounds_parse::<R>(lines.deep_view()) == Result::<
                    Seq<R>,
                    ErrorModel,
                >::Err(e@),
            },
    {
        let ghost lv = lines.deep_view();
        let mut rounds: Vec<R> = Vec::new();
        let mut i: usize = 0;
        proof {
            assert(lv.skip(0) =~= lv);
        }
        while i < lines.len()
            invariant
                0 <= i <= lv.len(),
                rounds_parse::<R>(lv) == match rounds_parse::<R>(lv.skip(i as int)) {
                    Result::<Seq<R>, ErrorModel>::Ok(rest) => Result::<Seq<R>, ErrorModel>::Ok(
                        rounds@ + rest,
                    ),
                    Result::<Seq<R>, ErrorModel>::Err(e) => Result::<Seq<R>, ErrorModel>::Err(e),
                },
            decreases lv.len() - i,
        {
            proof {
                assert(lv.skip(i as int)[0] == lv[i as int]);
                assert(lv.skip(i as int).drop_first() =~= lv.skip(i + 1));
                assert(lines@[i as int]@ == lv[i as int]);
            }
            match R::parse_line(lines[i].as_str()) {
                Result::Ok(v) => {
                    let ghost prev = rounds@;
                    rounds.push(v);
                    proof {
                        match rounds_parse::<R>(lv.skip(i + 1)) {
                            Result::Ok(rest) => {
                                assert(prev + (seq![rounds@.last()] + rest) =~= rounds@ + rest);
                            },
                            Result::Err(_) => {},
                        }
                    }
                },
                Result::Err(e) => {
                    return Result::Err(e);
                },
            }
            i = i + 1;
        }
        proof {
            assert(lv.skip(lv.len() as int) =~= Seq::<Seq<char>>::empty());
            assert(rounds@ + Seq::<R>::empty() =~= rounds@);
        }
        Result::Ok(StrategyGuide(rounds))
    }

    /// The total score of the whole guide.
    #[verifier::loop_isolation(false)]
    pub fn evaluate(&self) -> (r: usize)
        requires
            9 * self.0@.len() <= usize::MAX,
        ensures
            r == sum_plays(self.0@),
    {
        let ghost rs = self.0@;
        let mut total: usize = 0;
        let mut i: usize = 0;
        proof {
            assert(rs.skip(0) =~= rs);
            lemma_sum_plays_bounds(rs);
        }
        while i < self.0.len()
            invariant
                0 <= i <= rs.len(),
                sum_plays(rs) == total + sum_plays(rs.skip(i as int)),
            decreases rs.len() - i,
        {
            proof {
                assert(rs.skip(i as int)[0] == rs[i as int]);
                assert(rs.skip(i as int).drop_first() =~= rs.skip(i + 1));
                lemma_sum_plays_bounds(rs.skip(i + 1));
                rs[i as int].play_spec_bounds();
            }
            let p = self.0[i].play();
            total = total + p;
            i = i + 1;
        }
        proof {
            assert(rs.skip(rs.len() as int) =~= Seq::<R>::empty());
        }
        total
    }
}

/// Scores the whole guide under one reading: the lines parsed, the rounds
/// summed, the total rendered in decimal.
pub fn solve<R: Round>(lines: &Vec<String>) -> (r: Result<String, SolverError>)
    requires
        9 * lines.deep_view().len() <= usize::MAX,
    ensures
        match rounds_parse::<R>(lines.deep_view()) {
            Result::Ok(rs) => r matches Result::Ok(s) && s@ == dec_str(sum_plays(rs)),
            Result::Err(m) => r matches Result::Err(SolverError::Day2(e)) && e@ == m,
        },
{
    let guide = match StrategyGuide::<R>::from_lines(lines) {
        Result::Ok(g) => g,
        Result::Err(e) => {
            return Result::Err(SolverError::Day2(e));
        },
    };
    proof {
        lemma_rounds_parse_len::<R>(lines.deep_view());
    }
    let total = guide.evaluate();
    Result::Ok(crate::digits::usize_to_string(total))
}

proof fn lemma_rounds_parse_len<R: Round>(lines: Seq<Seq<char>>)
    ensures
        rounds_parse::<R>(lines) matches Result::Ok(rs) ==> rs.len() == lines.len(),
    decreases lines.len(),
{
    if lines.len() > 0 {
        lemma_rounds_parse_len::<R>(lines.drop_first());
    }
}

/// The day-2 solver.
#[derive(Debug)]
pub struct Day2;

impl Day2 {
    /// The puzzle's name.
    pub fn name(&self) -> (r: &'static str)
        ensures
            r@ == "Rock Paper Scissors"@,
    {
        "Rock Paper Scissors"
    }

    /// Scores the guide with both columns read as plays.
    pub fn solve_part1(&self, lines: &Vec<String>) -> (r: Result<String, SolverError>)
        requires
            9 * lines.deep_view().len() <= usize::MAX,
        ensures
            match rounds_parse::<Round1>(lines.deep_view()) {
                Result::Ok(rs) => r matches Result::Ok(s) && s@ == dec_str(sum_plays(rs)),
                Result::Err(m) => r matches Result::Err(SolverError::Day2(e)) && e@ == m,
            },
    {
        solve::<Round1>(lines)
    }

    /// Scores the guide with the second column read as the wanted outcome.
    pub fn solve_part2(&self, lines: &Vec<String>) -> (r: Result<String, SolverError>)
        requires
            9 * lines.deep_view().len() <= usize::MAX,
        ensures
            match rounds_parse::<Round2>(lines.deep_view()) {
                Result::Ok(rs) => r matches Result::Ok(s) && s@ == dec_str(sum_plays(rs)),
                Result::Err(m) => r matches Result::Err(SolverError::Day2(e)) && e@ == m,
            },
    {
        solve::<Round2>(lines)
    }

    /// The result each part must yield on the test fixture.
    pub fn test_expected(&self, part: usize) -> (r: &'static str)
        requires
            1 <= part <= 2,
        ensures
            part == 1 ==> r@ == "15"@,
            part == 2 ==> r@ == "12"@,
    {
        if part == 1 {
            "15"
        } else {
            "12"
        }
    }
}

/// The day-2 solver instance.
pub fn new() -> (r: Day2)
    ensures
        r == Day2,
{
    Day2
}

} // verus!
