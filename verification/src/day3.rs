//! The day-3 solver: finding items shared between rucksack compartments
//! and summing their priorities.

use vstd::prelude::*;

use crate::day::SolverError;
use crate::digits::dec_str;

verus! {

/// Ghost model of a day-3 error.
pub enum ErrorModel {
    InvalidItem(char),
}

/// Errors of reading the rucksack lines.
#[derive(Debug)]
pub enum Error {
    /// A character that names no item.
    InvalidItem(char),
}

impl View for Error {
    type V = ErrorModel;

    open spec fn view(&self) -> ErrorModel {
        match self {
            Error::InvalidItem(c) => ErrorModel::InvalidItem(*c),
        }
    }
}

/// Distance between two characters' code points.
pub open spec fn char_distance(c1: char, c2: char) -> int {
    if c2 as int >= c1 as int {
        c2 as int - c1 as int
    } else {
        c1 as int - c2 as int
    }
}

/// The absolute difference of two characters' code points.
pub fn distance(c1: char, c2: char) -> (r: usize)
    ensures
        r == char_distance(c1, c2),
{
    let a = c1 as u32;
    let b = c2 as u32;
    if b >= a {
        (b - a) as usize
    } else {
        (a - b) as usize
    }
}

/// A character that names an item: an ASCII letter.
pub open spec fn is_item_char(c: char) -> bool {
    ('a' <= c && c <= 'z') || ('A' <= c && c <= 'Z')
}

/// The priority of an item: `a`-`z` map to 1-26, `A`-`Z` to 27-52.
pub open spec fn item_priority(c: char) -> int {
    if 'a' <= c && c <= 'z' {
        1 + char_distance(c, 'a')
    } else {
        27 + char_distance(c, 'A')
    }
}

/// One item of a rucksack.
#[derive(Debug, Clone, Copy)]
pub struct Item(pub char);

impl Item {
    /// The item's priority; nothing for a character that names no item.
    pub fn priority(&self) -> (r: Option<usize>)
        ensures
            match r {
                Option::Some(p) => is_item_char(self.0) && p == item_priority(self.0),
                Option::None => !is_item_char(self.0),
            },
    {
        let c = self.0;
        if 'a' <= c && c <= 'z' {
            Option::Some(1 + distance(c, 'a'))
        } else if 'A' <= c && c <= 'Z' {
            Option::Some(27 + distance(c, 'A'))
        } else {
            Option::None
        }
    }

    /// Reads one character as an item; ASCII letters alone qualify.
    pub fn from_char(c: char) -> (r: Result<Item, Error>)
        ensures
            match r {
                Result::Ok(it) => is_item_char(c) && it.0 == c,
                Result::Err(e) => !is_item_char(c) && e@ == ErrorModel::InvalidItem(c),
            },
    {
        if ('a' <= c && c <= 'z') || ('A' <= c && c <= 'Z') {
            Result::Ok(Item(c))
        } else {
            Result::Err(Error::InvalidItem(c))
        }
    }
}

/// The characters of an item sequence.
pub open spec fn item_chars(v: Seq<Item>) -> Seq<char> {
    v.map_values(|i: Item| i.0)
}

/// The distinct characters of `s`, each kept at its first occurrence.
pub open spec fn dedup_keep_first(s: Seq<char>) -> Seq<char>
    decreases s.len(),
{
    if s.len() == 0 {
        Seq::empty()
    } else {
        let front = dedup_keep_first(s.drop_last());
        if front.contains(s.last()) {
            front
        } else {
            front.push(s.last())
        }
    }
}

/// The characters of `a` that `b` also holds, in `a`'s order.
pub open spec fn common_chars(a: Seq<char>, b: Seq<char>) -> Seq<char>
    decreases a.len(),
{
    if a.len() == 0 {
        Seq::empty()
    } else {
        let front = common_chars(a.drop_last(), b);
        if b.contains(a.last()) {
            front.push(a.last())
        } else {
            front
        }
    }
}

/// The characters of `b` that `a` does not hold, in `b`'s order.
pub open spec fn added_chars(a: Seq<char>, b: Seq<char>) -> Seq<char>
    decreases b.len(),
{
    if b.len() == 0 {
        Seq::empty()
    } else {
        let front = added_chars(a, b.drop_last());
        if a.contains(b.last()) {
            front
        } else {
            front.push(b.last())
        }
    }
}

/// Position of the first character of `s` that names no item, or `s.len()`.
pub open spec fn first_non_item(s: Seq<char>) -> int
    decreases s.len(),
{
    if s.len() == 0 {
        0
    } else if !is_item_char(s[0]) {
        0
    } else {
        1 + first_non_item(s.drop_first())
    }
}

proof fn lemma_first_non_item_is(s: Seq<char>, q: int)
    requires
        0 <= q <= s.len(),
        forall|k: int| 0 <= k < q ==> is_item_char(s[k]),
        q < s.len() ==> !is_item_char(s[q]),
    ensures
        first_non_item(s) == q,
    decreases s.len(),
{
    if q > 0 {
        assert(forall|k: int| 0 <= k < q - 1 ==> is_item_char(#[trigger] s.drop_first()[k]));
        assert(q - 1 < s.drop_first().len() ==> !is_item_char(s.drop_first()[q - 1]));
        lemma_first_non_item_is(s.drop_first(), q - 1);
    }
}

/// What reading a compartment's characters yields: its distinct item
/// characters in first-occurrence order, or the first failing character.
pub open spec fn compartment_parse(s: Seq<char>) -> Result<Seq<char>, ErrorModel> {
    if first_non_item(s) == s.len() {
        Result::Ok(dedup_keep_first(s))
    } else {
        Result::Err(ErrorModel::InvalidItem(s[first_non_item(s)]))
    }
}

/// A compartment: the distinct items it holds, in first-occurrence order.
#[derive(Debug)]
pub struct Compartment(pub Vec<Item>);

/// Whether `v` holds an item with character `c`.
#[verifier::loop_isolation(false)]
fn holds_char(v: &Vec<Item>, c: char) -> (r: bool)
    ensures
        r == item_chars(v@).contains(c),
{
    let mut i: usize = 0;
    while i < v.len()
        invariant
            0 <= i <= v@.len(),
            forall|k: int| 0 <= k < i ==> item_chars(v@)[k] != c,
        decreases v@.len() - i,
    {
        if v[i].0 == c {
            assert(item_chars(v@)[i as int] == c);
            return true;
        }
        i = i + 1;
    }
    assert(forall|k: int| 0 <= k < item_chars(v@).len() ==> item_chars(v@)[k] != c);
    false
}

impl Compartment {
    /// Reads a run of characters, rejecting the first that is no item and
    /// keeping each item once, at its first occurrence.
    #[verifier::loop_isolation(false)]
    pub fn parse(s: &str) -> (r: Result<Compartment, Error>)
        ensures
            match r {
                Result::Ok(c) => compartment_parse(s@) == Result::<Seq<char>, ErrorModel>::Ok(
                    item_chars(c.0@),
                ),
                Result::Err(e) => compartment_parse(s@) == Result::<Seq<char>, ErrorModel>::Err(
                    e@,
                ),
            },
    {
        let n = s.unicode_len();
        let mut items: Vec<Item> = Vec::new();
        let mut i: usize = 0;
        proof {
            assert(s@.take(0) =~= Seq::<char>::empty());
            assert(item_chars(items@) =~= dedup_keep_first(s@.take(0)));
        }
        while i < n
            invariant
                0 <= i <= n,
                forall|k: int| 0 <= k < i ==> is_item_char(s@[k]),
                item_chars(items@) =~= dedup_keep_first(s@.take(i as int)),
            decreases n - i,
        {
            let c = s.get_char(i);
            let item = match Item::from_char(c) {
                Result::Ok(it) => it,
                Result::Err(e) => {
                    proof {
                        lemma_first_non_item_is(s@, i as int);
                    }
                    return Result::Err(e);
                },
            };
            proof {
                assert(s@.take(i + 1).drop_last() =~= s@.take(i as int));
                assert(s@.take(i + 1).last() == c);
            }
            if !holds_char(&items, c) {
                let ghost prev = item_chars(items@);
                items.push(item);
                proof {
                    assert(item_chars(items@) =~= prev.push(c));
                }
            }
            i = i + 1;
        }
        proof {
            lemma_first_non_item_is(s@, n as int);
            assert(s@.take(n as int) =~= s@);
        }
        Result::Ok(Compartment(items))
    }

    /// The items of this compartment that the other also holds, in this
    /// compartment's order.
    pub fn common(&self, other: &Compartment) -> (r: Vec<Item>)
        ensures
            item_chars(r@) =~= common_chars(item_chars(self.0@), item_chars(other.0@)),
    {
        common_items(&self.0, &other.0)
    }
}

/// The items of `a` whose characters `b` also holds, in `a`'s order.
#[verifier::loop_isolation(false)]
fn common_items(a: &Vec<Item>, b: &Vec<Item>) -> (r: Vec<Item>)
    ensures
        item_chars(r@) =~= common_chars(item_chars(a@), item_chars(b@)),
{
    let mut out: Vec<Item> = Vec::new();
    let mut i: usize = 0;
    proof {
        assert(item_chars(a@).take(0) =~= Seq::<char>::empty());
        assert(item_chars(out@) =~= common_chars(item_chars(a@).take(0), item_chars(b@)));
    }
    while i < a.len()
        invariant
            0 <= i <= a@.len(),
            item_chars(out@) =~= common_chars(item_chars(a@).take(i as int), item_chars(b@)),
        decreases a@.len() - i,
    {
        proof {
            assert(item_chars(a@).take(i + 1).drop_last() =~= item_chars(a@).take(i as int));
            assert(item_chars(a@).take(i + 1).last() == a@[i as int].0);
        }
        if holds_char(b, a[i].0) {
            let ghost prev = item_chars(out@);
            out.push(a[i]);
            proof {
                assert(item_chars(out@) =~= prev.push(a@[i as int].0));
            }
        }
        i = i + 1;
    }
    proof {
        assert(item_chars(a@).take(a@.len() as int) =~= item_chars(a@));
    }
    out
}

/// `a`'s items, then the items of `b` whose characters `a` does not hold,
/// in order.
#[verifier::loop_isolation(false)]
fn union_items(a: &Vec<Item>, b: &Vec<Item>) -> (r: Vec<Item>)
    ensures
        item_chars(r@) =~= item_chars(a@) + added_chars(item_chars(a@), item_chars(b@)),
{
    let mut out: Vec<Item> = Vec::new();
    let mut i: usize = 0;
    while i < a.len()
        invariant
            0 <= i <= a@.len(),
            item_chars(out@) =~= item_chars(a@).take(i as int),
        decreases a@.len() - i,
    {
        let ghost prev = item_chars(out@);
        out.push(a[i]);
        proof {
            assert(item_chars(out@) =~= prev.push(a@[i as int].0));
            assert(item_chars(a@).take(i + 1) =~= item_chars(a@).take(i as int).push(
                a@[i as int].0,
            ));
        }
        i = i + 1;
    }
    proof {
        assert(item_chars(a@).take(a@.len() as int) =~= item_chars(a@));
    }
    let mut j: usize = 0;
    while j < b.len()
        invariant
            0 <= j <= b@.len(),
            item_chars(out@) =~= item_chars(a@) + added_chars(
                item_chars(a@),
                item_chars(b@).take(j as int),
            ),
        decreases b@.len() - j,
    {
        proof {
            assert(item_chars(b@).take(j + 1).drop_last() =~= item_chars(b@).take(j as int));
            assert(item_chars(b@).take(j + 1).last() == b@[j as int].0);
        }
        if !holds_char(a, b[j].0) {
            let ghost prev = item_chars(out@);
            out.push(b[j]);
            proof {
                assert(item_chars(out@) =~= prev.push(b@[j as int].0));
            }
        }
        j = j + 1;
    }
    proof {
        assert(item_chars(b@).take(b@.len() as int) =~= item_chars(b@));
    }
    out
}

/// What reading one rucksack line yields: the line halved by character
/// count, each half a compartment.
pub open spec fn rucksack_parse(s: Seq<char>) -> Result<(Seq<char>, Seq<char>), ErrorModel> {
    let half = s.len() as int / 2;
    match compartment_parse(s.subrange(0, half)) {
        Result::Err(e) => Result::Err(e),
        Result::Ok(c1) => match compartment_parse(s.subrange(half, s.len() as int)) {
            Result::Err(e) => Result::Err(e),
            Result::Ok(c2) => Result::Ok((c1, c2)),
        },
    }
}

/// A rucksack: its two compartments, the line's first and second half.
#[derive(Debug)]
pub struct Rucksack(pub Compartment, pub Compartment);

impl Rucksack {
    /// Reads one line, splitting it in half into the two compartments.
    pub fn parse(s: &str) -> (r: Result<Rucksack, Error>)
        ensures
            match r {
                Result::Ok(rs) => rucksack_parse(s@) == Result::<
                    (Seq<char>, Seq<char>),
                    ErrorModel,
                >::Ok((item_chars(rs.0.0@), item_chars(rs.1.0@))),
                Result::Err(e) => rucksack_parse(s@) == Result::<
                    (Seq<char>, Seq<char>),
                    ErrorModel,
                >::Err(e@),
            },
    {
        let len = s.unicode_len();
        let half = len / 2;
        let first_half = s.substring_char(0, half);
        let second_half = s.substring_char(half, len);
        let c1 = match Compartment::parse(first_half) {
            Result::Ok(c) => c,
            Result::Err(e) => {
                return Result::Err(e);
            },
        };
        let c2 = match Compartment::parse(second_half) {
            Result::Ok(c) => c,
            Result::Err(e) => {
                return Result::Err(e);
            },
        };
        Result::Ok(Rucksack(c1, c2))
    }

    /// The items the two compartments share, in first-compartment order.
    pub fn duplicated(&self) -> (r: Vec<Item>)
        ensures
            item_chars(r@) =~= common_chars(item_chars(self.0.0@), item_chars(self.1.0@)),
    {
        self.0.common(&self.1)
    }

    /// Every item of either compartment, the first compartment's items
    /// first, each character once.
    pub fn items(&self) -> (r: Vec<Item>)
        ensures
            item_chars(r@) =~= item_chars(self.0.0@) + added_chars(
                item_chars(self.0.0@),
                item_chars(self.1.0@),
            ),
    {
        union_items(&self.0.0, &self.1.0)
    }
}


/// What reading every line yields: per line the two compartments' distinct
/// item characters, or the first line's error.
pub open spec fn rucksacks_parse(lines: Seq<Seq<char>>) -> Result<
    Seq<(Seq<char>, Seq<char>)>,
    ErrorModel,
>
    decreases lines.len(),
{
    if lines.len() == 0 {
        Result::Ok(Seq::empty())
    } else {
        match rucksack_parse(lines[0]) {
            Result::Err(e) => Result::Err(e),
            Result::Ok(rs) => match rucksacks_parse(lines.drop_first()) {
                Result::Err(e) => Result::Err(e),
                Result::Ok(rest) => Result::Ok(seq![rs] + rest),
            },
        }
    }
}

/// The score one rucksack adds: the priority of the first item its two
/// compartments share, or nothing where they share none.
pub open spec fn rucksack_score(rs: (Seq<char>, Seq<char>)) -> int {
    let commons = common_chars(rs.0, rs.1);
    if commons.len() > 0 {
        item_priority(commons[0])
    } else {
        0
    }
}

/// The part-1 total: the shared-item priorities of all rucksacks summed.
pub open spec fn part1_sum(rs: Seq<(Seq<char>, Seq<char>)>) -> int
    decreases rs.len(),
{
    if rs.len() == 0 {
        0
    } else {
        rucksack_score(rs[0]) + part1_sum(rs.drop_first())
    }
}

/// Every item character of one rucksack, each once.
pub open spec fn rucksack_union(rs: (Seq<char>, Seq<char>)) -> Seq<char> {
    rs.0 + added_chars(rs.0, rs.1)
}

/// The score one group of three adds: the priority of the first item all
/// three rucksacks carry, or nothing where no such badge exists.
pub open spec fn group_score(
    a: (Seq<char>, Seq<char>),
    b: (Seq<char>, Seq<char>),
    c: (Seq<char>, Seq<char>),
) -> int {
    let badge = common_chars(
        common_chars(rucksack_union(a), rucksack_union(b)),
        rucksack_union(c),
    );
    if badge.len() > 0 {
        item_priority(badge[0])
    } else {
        0
    }
}

/// The part-2 total: the badge priorities of all groups of three summed.
pub open spec fn part2_sum(rs: Seq<(Seq<char>, Seq<char>)>) -> int
    decreases rs.len(),
{
    if rs.len() < 3 {
        0
    } else {
        group_score(rs[0], rs[1], rs[2]) + part2_sum(rs.skip(3))
    }
}

/// Every character of `s` names an item.
pub open spec fn all_items(s: Seq<char>) -> bool {
    forall|i: int| 0 <= i < s.len() ==> is_item_char(s[i])
}

proof fn lemma_dedup_items(s: Seq<char>)
    requires
        all_items(s),
    ensures
        all_items(dedup_keep_first(s)),
    decreases s.len(),
{
    if s.len() > 0 {
        assert(all_items(s.drop_last()));
        lemma_dedup_items(s.drop_last());
    }
}

proof fn lemma_common_items(a: Seq<char>, b: Seq<char>)
    requires
        all_items(a),
    ensures
        all_items(common_chars(a, b)),
    decreases a.len(),
{
    if a.len() > 0 {
        assert(all_items(a.drop_last()));
        lemma_common_items(a.drop_last(), b);
    }
}

proof fn lemma_added_items(a: Seq<char>, b: Seq<char>)
    requires
        all_items(b),
    ensures
        all_items(added_chars(a, b)),
    decreases b.len(),
{
    if b.len() > 0 {
        assert(all_items(b.drop_last()));
        lemma_added_items(a, b.drop_last());
    }
}

proof fn lemma_first_non_item_all(s: Seq<char>)
    requires
        first_non_item(s) == s.len(),
    ensures
        all_items(s),
    decreases s.len(),
{
    if s.len() > 0 {
        assert(is_item_char(s[0]));
        lemma_first_non_item_all(s.drop_first());
        assert forall|k: int| 0 <= k < s.len() implies is_item_char(s[k]) by {
            if k >= 1 {
                assert(s.drop_first()[k - 1] == s[k]);
            }
        }
    }
}

/// Every compartment a parse yields holds item characters alone.
proof fn lemma_parse_all_items(lines: Seq<Seq<char>>)
    ensures
        rucksacks_parse(lines) matches Result::Ok(rs) ==> (forall|k: int|
            0 <= k < rs.len() ==> all_items((#[trigger] rs[k]).0) && all_items(rs[k].1)) && rs.len()
            == lines.len(),
    decreases lines.len(),
{
    if lines.len() > 0 {
        lemma_parse_all_items(lines.drop_first());
        if rucksacks_parse(lines) matches Result::Ok(rs) {
            let s = lines[0];
            let half = s.len() as int / 2;
            lemma_first_non_item_all(s.subrange(0, half));
            lemma_first_non_item_all(s.subrange(half, s.len() as int));
            lemma_dedup_items(s.subrange(0, half));
            lemma_dedup_items(s.subrange(half, s.len() as int));
        }
    }
}

/// One rucksack or group never scores more than 52.
proof fn lemma_score_bounds(rs: Seq<(Seq<char>, Seq<char>)>)
    requires
        forall|k: int| 0 <= k < rs.len() ==> all_items((#[trigger] rs[k]).0) && all_items(rs[k].1),
    ensures
        0 <= part1_sum(rs) <= 52 * rs.len(),
        0 <= part2_sum(rs) <= 52 * rs.len(),
    decreases rs.len(),
{
    if rs.len() > 0 {
        assert(forall|k: int|
            0 <= k < rs.drop_first().len() ==> all_items((#[trigger] rs.drop_first()[k]).0)
                && all_items(rs.drop_first()[k].1));
        lemma_score_bounds(rs.drop_first());
        lemma_common_items(rs[0].0, rs[0].1);
        assert(0 <= rucksack_score(rs[0]) <= 52);
        if rs.len() >= 3 {
            assert(rs.skip(3) =~= rs.drop_first().skip(2));
            assert(forall|k: int|
                0 <= k < rs.skip(3).len() ==> all_items((#[trigger] rs.skip(3)[k]).0)
                    && all_items(rs.skip(3)[k].1));
            lemma_score_bounds(rs.skip(3));
            lemma_group_score_bounds(rs[0], rs[1], rs[2]);
            assert(part2_sum(rs) == group_score(rs[0], rs[1], rs[2]) + part2_sum(rs.skip(3)));
        }
    }
}

proof fn lemma_group_score_bounds(
    a: (Seq<char>, Seq<char>),
    b: (Seq<char>, Seq<char>),
    c: (Seq<char>, Seq<char>),
)
    requires
        all_items(a.0),
        all_items(a.1),
    ensures
        0 <= group_score(a, b, c) <= 52,
{
    lemma_added_items(a.0, a.1);
    assert(all_items(rucksack_union(a)));
    lemma_common_items(rucksack_union(a), rucksack_union(b));
    lemma_common_items(
        common_chars(rucksack_union(a), rucksack_union(b)),
        rucksack_union(c),
    );
}

/// The models of a parsed rucksack list.
pub open spec fn rucksacks_model(v: Seq<Rucksack>) -> Seq<(Seq<char>, Seq<char>)> {
    v.map_values(|r: Rucksack| (item_chars(r.0.0@), item_chars(r.1.0@)))
}

/// Reads every line as a rucksack, short-circuiting on the first error.
#[verifier::loop_isolation(false)]
fn parse_rucksacks(lines: &Vec<String>) -> (r: Result<Vec<Rucksack>, Error>)
    ensures
        match r {
            Result::Ok(v) => rucksacks_parse(lines.deep_view()) == Result::<
                Seq<(Seq<char>, Seq<char>)>,
                ErrorModel,
            >::Ok(rucksacks_model(v@)),
            Result::Err(e) => rucksacks_parse(lines.deep_view()) == Result::<
                Seq<(Seq<char>, Seq<char>)>,
                ErrorModel,
            >::Err(e@),
        },
{
    let ghost lv = lines.deep_view();
    let mut out: Vec<Rucksack> = Vec::new();
    let mut i: usize = 0;
    proof {
        assert(lv.skip(0) =~= lv);
        assert(rucksacks_model(out@) =~= Seq::<(Seq<char>, Seq<char>)>::empty());
    }
    while i < lines.len()
        invariant
            0 <= i <= lv.len(),
            rucksacks_parse(lv) == match rucksacks_parse(lv.skip(i as int)) {
                Result::<Seq<(Seq<char>, Seq<char>)>, ErrorModel>::Ok(rest) => Result::<
                    Seq<(Seq<char>, Seq<char>)>,
                    ErrorModel,
                >::Ok(rucksacks_model(out@) + rest),
                Result::<Seq<(Seq<char>, Seq<char>)>, ErrorModel>::Err(e) => Result::<
                    Seq<(Seq<char>, Seq<char>)>,
                    ErrorModel,
                >::Err(e),
            },
        decreases lv.len() - i,
    {
        proof {
            assert(lv.skip(i as int)[0] == lv[i as int]);
            assert(lv.skip(i as int).drop_first() =~= lv.skip(i + 1));
            assert(lines@[i as int]@ == lv[i as int]);
        }
        match Rucksack::parse(lines[i].as_str()) {
            Result::Ok(rs) => {
                let ghost prev = rucksacks_model(out@);
                let ghost m = (item_chars(rs.0.0@), item_chars(rs.1.0@));
                out.push(rs);
                proof {
                    assert(rucksacks_model(out@) =~= prev.push(m));
                    match rucksacks_parse(lv.skip(i + 1)) {
                        Result::Ok(rest) => {
                            assert(prev + (seq![m] + rest) =~= prev.push(m) + rest);
                        },
                        Result::Err(_) => {},
                    }
                }
            },
            Result::Err(e) => {
                return Result::Err(e);
            },
        }
        i = i + 1;
    }
    proof {
        assert(lv.skip(lv.len() as int) =~= Seq::<Seq<char>>::empty());
        assert(rucksacks_model(out@) + Seq::<(Seq<char>, Seq<char>)>::empty() =~= rucksacks_model(
            out@,
        ));
    }
    Result::Ok(out)
}

/// The day-3 solver.
#[derive(Debug)]
pub struct Day3;

impl Day3 {
    /// The puzzle's name.
    pub fn name(&self) -> (r: &'static str)
        ensures
            r@ == "Rucksack Reorganization"@,
    {
        "Rucksack Reorganization"
    }

    /// Sums the priority of each rucksack's first shared item.
    #[verifier::loop_isolation(false)]
    pub fn solve_part1(&self, lines: &Vec<String>) -> (r: Result<String, SolverError>)
        requires
            52 * lines.deep_view().len() <= usize::MAX,
        ensures
            match rucksacks_parse(lines.deep_view()) {
                Result::Ok(rs) => r matches Result::Ok(s) && s@ == dec_str(part1_sum(rs)),
                Result::Err(m) => r matches Result::Err(SolverError::Day3(e)) && e@ == m,
            },
    {
        let rucksacks = match parse_rucksacks(lines) {
            Result::Ok(v) => v,
            Result::Err(e) => {
                return Result::Err(SolverError::Day3(e));
            },
        };
        let ghost model = rucksacks_model(rucksacks@);
        proof {
            lemma_parse_all_items(lines.deep_view());
            lemma_score_bounds(model);
            assert(52 * model.len() <= usize::MAX);
            assert(model.skip(0) =~= model);
        }
        let mut total: usize = 0;
        let mut i: usize = 0;
        while i < rucksacks.len()
            invariant
                0 <= i <= model.len(),
                part1_sum(model) == total + part1_sum(model.skip(i as int)),
            decreases model.len() - i,
        {
            proof {
                assert(model.skip(i as int)[0] == model[i as int]);
                assert(model.skip(i as int).drop_first() =~= model.skip(i + 1));
                assert(forall|k: int|
                    0 <= k < model.skip(i + 1).len() ==> all_items(
                        (#[trigger] model.skip(i + 1)[k]).0,
                    ) && all_items(model.skip(i + 1)[k].1));
                lemma_score_bounds(model.skip(i + 1));
                lemma_common_items(model[i as int].0, model[i as int].1);
            }
            let dup = rucksacks[i].duplicated();
            if dup.len() > 0 {
                proof {
                    assert(item_chars(dup@)[0] == dup@[0].0);
                }
                match dup[0].priority() {
                    Option::Some(p) => {
                        total = total + p;
                    },
                    Option::None => {
                        proof {
                            assert(false);
                        }
                    },
                }
            }
            i = i + 1;
        }
        proof {
            assert(model.skip(model.len() as int) =~= Seq::<(Seq<char>, Seq<char>)>::empty());
        }
        Result::Ok(crate::digits::usize_to_string(total))
    }

    /// Sums the badge priority of each group of three rucksacks.
    #[verifier::loop_isolation(false)]
    pub fn solve_part2(&self, lines: &Vec<String>) -> (r: Result<String, SolverError>)
        requires
            52 * lines.deep_view().len() <= usize::MAX,
            rucksacks_parse(lines.deep_view()) is Ok ==> lines.deep_view().len() % 3 == 0,
        ensures
            match rucksacks_parse(lines.deep_view()) {
                Result::Ok(rs) => r matches Result::Ok(s) && s@ == dec_str(part2_sum(rs)),
                Result::Err(m) => r matches Result::Err(SolverError::Day3(e)) && e@ == m,
            },
    {
        let rucksacks = match parse_rucksacks(lines) {
            Result::Ok(v) => v,
            Result::Err(e) => {
                return Result::Err(SolverError::Day3(e));
            },
        };
        let ghost model = rucksacks_model(rucksacks@);
        proof {
            lemma_parse_all_items(lines.deep_view());
            lemma_score_bounds(model);
            assert(52 * model.len() <= usize::MAX);
            assert(model.skip(0) =~= model);
        }
        let mut total: usize = 0;
        let mut i: usize = 0;
        while i + 2 < rucksacks.len()
            invariant
                0 <= i <= model.len(),
                i % 3 == 0,
                model.len() % 3 == 0,
                part2_sum(model) == total + part2_sum(model.skip(i as int)),
            decreases model.len() - i,
        {
            proof {
                assert(model.skip(i as int)[0] == model[i as int]);
                assert(model.skip(i as int)[1] == model[i + 1]);
                assert(model.skip(i as int)[2] == model[i + 2]);
                assert(model.skip(i as int).skip(3) =~= model.skip(i + 3));
                assert(forall|k: int|
                    0 <= k < model.skip(i + 3).len() ==> all_items(
                        (#[trigger] model.skip(i + 3)[k]).0,
                    ) && all_items(model.skip(i + 3)[k].1));
                lemma_score_bounds(model.skip(i + 3));
                lemma_group_score_bounds(model[i as int], model[i + 1], model[i + 2]);
                lemma_added_items(model[i as int].0, model[i as int].1);
                lemma_common_items(
                    rucksack_union(model[i as int]),
                    rucksack_union(model[i + 1]),
                );
                lemma_common_items(
                    common_chars(rucksack_union(model[i as int]), rucksack_union(model[i + 1])),
                    rucksack_union(model[i + 2]),
                );
            }
            let first = rucksacks[i].items();
            let second = rucksacks[i + 1].items();
            let third = rucksacks[i + 2].items();
            let common = common_items(&first, &second);
            let badge = common_items(&common, &third);
            if badge.len() > 0 {
                proof {
                    assert(item_chars(badge@)[0] == badge@[0].0);
                }
                match badge[0].priority() {
                    Option::Some(p) => {
                        total = total + p;
                    },
                    Option::None => {
                        proof {
                            assert(false);
                        }
                    },
                }
            }
            i = i + 3;
        }
        proof {
            assert(model.skip(i as int).len() < 3);
            assert(part2_sum(model.skip(i as int)) == 0);
        }
        Result::Ok(crate::digits::usize_to_string(total))
    }

    /// The result each part must yield on the test fixture.
    pub fn test_expected(&self, part: usize) -> (r: &'static str)
        requires
            1 <= part <= 2,
        ensures
            part == 1 ==> r@ == "157"@,
            part == 2 ==> r@ == "70"@,
    {
        if part == 1 {
            "157"
        } else {
            "70"
        }
    }
}

/// The day-3 solver instance.
pub fn new() -> (r: Day3)
    ensures
        r == Day3,
{
    Day3
}

} // verus!
