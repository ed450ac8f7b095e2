//! The day-1 solver: summing rations per elf and ranking the totals.

use vstd::prelude::*;
use vstd::seq_lib::group_to_multiset_ensures;

use crate::day::SolverError;
use crate::digits::{dec_str, parse_usize, usize_str_ok, usize_str_val};

verus! {

/// Ghost model of a day-1 error.
pub enum ErrorModel {
    InvalidRation(Seq<char>),
    TooLitleElfs(usize),
}

/// Errors of reading the ration list.
#[derive(Debug)]
pub enum Error {
    /// A ration line that is not a numeric value.
    InvalidRation(String),
    /// Fewer elves than the ranking needs; carries how many there are.
    TooLitleElfs(usize),
}

impl View for Error {
    type V = ErrorModel;

    open spec fn view(&self) -> ErrorModel {
        match self {
            Error::InvalidRation(s) => ErrorModel::InvalidRation(s@),
            Error::TooLitleElfs(n) => ErrorModel::TooLitleElfs(*n),
        }
    }
}

/// One ration: its calorie count.
#[derive(Debug, Copy, Clone)]
pub struct Ration(pub usize);

impl Ration {
    /// Reads one line as a calorie count, as `usize::from_str` would.
    pub fn parse(s: &str) -> (r: Result<Ration, Error>)
        ensures
            match r {
                Result::Ok(v) => usize_str_ok(s@) && v.0 == usize_str_val(s@),
                Result::Err(e) => !usize_str_ok(s@) && e@ == ErrorModel::InvalidRation(s@),
            },
    {
        match parse_usize(s) {
            Option::Some(v) => Result::Ok(Ration(v)),
            Option::None => Result::Err(Error::InvalidRation(s.to_owned())),
        }
    }
}

/// The calorie counts of a ration sequence.
pub open spec fn rations_vals(v: Seq<Ration>) -> Seq<usize> {
    v.map_values(|r: Ration| r.0)
}

/// The sum of a value sequence.
pub open spec fn sum_vals(s: Seq<usize>) -> int
    decreases s.len(),
{
    if s.len() == 0 {
        0
    } else {
        sum_vals(s.drop_last()) + s.last()
    }
}

pub proof fn lemma_sum_vals_nonneg(s: Seq<usize>)
    ensures
        sum_vals(s) >= 0,
    decreases s.len(),
{
    if s.len() > 0 {
        lemma_sum_vals_nonneg(s.drop_last());
    }
}

/// A partial sum never exceeds the whole.
pub proof fn lemma_sum_vals_take_le(s: Seq<usize>, i: int)
    requires
        0 <= i <= s.len(),
    ensures
        sum_vals(s.take(i)) <= sum_vals(s),
    decreases s.len() - i,
{
    if i < s.len() {
        assert(s.take(i + 1).drop_last() =~= s.take(i));
        lemma_sum_vals_take_le(s, i + 1);
    } else {
        assert(s.take(i) =~= s);
    }
}

/// One elf: its rations, in input order.
#[derive(Debug)]
pub struct Elf {
    pub rations: Vec<Ration>,
}

/// What reading one elf's lines yields: a calorie count per line, or the
/// first line that is no number.
pub open spec fn elf_parse(lines: Seq<Seq<char>>) -> Result<Seq<usize>, ErrorModel>
    decreases lines.len(),
{
    if lines.len() == 0 {
        Result::Ok(Seq::empty())
    } else if !usize_str_ok(lines[0]) {
        Result::Err(ErrorModel::InvalidRation(lines[0]))
    } else {
        match elf_parse(lines.drop_first()) {
            Result::Err(e) => Result::Err(e),
            Result::Ok(rest) => Result::Ok(seq![usize_str_val(lines[0]) as usize] + rest),
        }
    }
}

impl Elf {
    /// The elf's total calories across all its rations.
    #[verifier::loop_isolation(false)]
    pub fn total_calories(&self) -> (r: usize)
        requires
            sum_vals(rations_vals(self.rations@)) <= usize::MAX,
        ensures
            r == sum_vals(rations_vals(self.rations@)),
    {
        let ghost vals = rations_vals(self.rations@);
        let mut total: usize = 0;
        let mut i: usize = 0;
        proof {
            assert(vals.take(0) =~= Seq::<usize>::empty());
            lemma_sum_vals_nonneg(vals);
        }
        while i < self.rations.len()
            invariant
                0 <= i <= vals.len(),
                total == sum_vals(vals.take(i as int)),
            decreases vals.len() - i,
        {
            proof {
                assert(vals.take(i + 1).drop_last() =~= vals.take(i as int));
                assert(vals.take(i + 1).last() == vals[i as int]);
                lemma_sum_vals_take_le(vals, i + 1);
                lemma_sum_vals_nonneg(vals.take(i as int));
            }
            total = total + self.rations[i].0;
            i = i + 1;
        }
        proof {
            assert(vals.take(vals.len() as int) =~= vals);
        }
        total
    }

    /// Reads every line of one block as a ration.
    #[verifier::loop_isolation(false)]
    pub fn from_lines(lines: &Vec<String>) -> (r: Result<Elf, Error>)
        ensures
            match r {
                Result::Ok(e) => elf_parse(lines.deep_view()) == Result::<
                    Seq<usize>,
                    ErrorModel,
                >::Ok(rations_vals(e.rations@)),
                Result::Err(e) => elf_parse(lines.deep_view()) == Result::<
                    Seq<usize>,
                    ErrorModel,
                >::Err(e@),
            },
    {
        let ghost lv = lines.deep_view();
        let mut rations: Vec<Ration> = Vec::new();
        let mut i: usize = 0;
        proof {
            assert(lv.skip(0) =~= lv);
            assert(rations_vals(rations@) =~= Seq::<usize>::empty());
        }
        while i < lines.len()
            invariant
                0 <= i <= lv.len(),
                elf_parse(lv) == match elf_parse(lv.skip(i as int)) {
                    Result::<Seq<usize>, ErrorModel>::Ok(rest) => Result::<
                        Seq<usize>,
                        ErrorModel,
                    >::Ok(rations_vals(rations@) + rest),
                    Result::<Seq<usize>, ErrorModel>::Err(e) => Result::<
                        Seq<usize>,
                        ErrorModel,
                    >::Err(e),
                },
            decreases lv.len() - i,
        {
            proof {
                assert(lv.skip(i as int)[0] == lv[i as int]);
                assert(lv.skip(i as int).drop_first() =~= lv.skip(i + 1));
                assert(lines@[i as int]@ == lv[i as int]);
            }
            match Ration::parse(lines[i].as_str()) {
                Result::Ok(v) => {
                    let ghost prev = rations_vals(rations@);
                    rations.push(v);
                    proof {
                        assert(rations_vals(rations@) =~= prev.push(v.0));
                        match elf_parse(lv.skip(i + 1)) {
                            Result::Ok(rest) => {
                                assert(prev + (seq![v.0] + rest) =~= prev.push(v.0) + rest);
                            },
                            Result::Err(_) => {},
                        }
                    }
                },
                Result::Err(e) => {
                    return Result::Err(e);
                },
            }
            i = i + 1;
        }
        proof {
            assert(lv.skip(lv.len() as int) =~= Seq::<Seq<char>>::empty());
            assert(rations_vals(rations@) + Seq::<usize>::empty() =~= rations_vals(rations@));
        }
        Result::Ok(Elf { rations })
    }
}

/// Splitting lines into blocks at empty lines, with a block still open.
pub open spec fn partition_rec(lines: Seq<Seq<char>>, current: Seq<Seq<char>>) -> Seq<
    Seq<Seq<char>>,
>
    decreases lines.len(),
{
    if lines.len() == 0 {
        if current.len() > 0 {
            seq![current]
        } else {
            Seq::empty()
        }
    } else if lines[0].len() == 0 {
        seq![current] + partition_rec(lines.drop_first(), Seq::empty())
    } else {
        partition_rec(lines.drop_first(), current.push(lines[0]))
    }
}

/// The blocks of `lines`, split at empty lines: each empty line closes the
/// block before it, and a non-empty tail closes the last.
pub open spec fn partition_spec(lines: Seq<Seq<char>>) -> Seq<Seq<Seq<char>>> {
    partition_rec(lines, Seq::empty())
}

pub proof fn lemma_partition_nonempty(lines: Seq<Seq<char>>, current: Seq<Seq<char>>)
    requires
        lines.len() > 0 || current.len() > 0,
    ensures
        partition_rec(lines, current).len() >= 1,
    decreases lines.len(),
{
    if lines.len() > 0 && lines[0].len() != 0 {
        lemma_partition_nonempty(lines.drop_first(), current.push(lines[0]));
    }
}

/// Splits the lines into blocks at each empty line.
#[verifier::loop_isolation(false)]
pub fn partition(lines: Vec<String>) -> (r: Vec<Vec<String>>)
    ensures
        r.deep_view() == partition_spec(lines.deep_view()),
{
    let ghost lv = lines.deep_view();
    let mut partitions: Vec<Vec<String>> = Vec::new();
    let mut current: Vec<String> = Vec::new();
    let mut i: usize = 0;
    proof {
        assert(lv.skip(0) =~= lv);
        assert(current.deep_view() =~= Seq::<Seq<char>>::empty());
        assert(partitions.deep_view() =~= Seq::<Seq<Seq<char>>>::empty());
    }
    while i < lines.len()
        invariant
            0 <= i <= lv.len(),
            partition_spec(lv) =~= partitions.deep_view() + partition_rec(
                lv.skip(i as int),
                current.deep_view(),
            ),
        decreases lv.len() - i,
    {
        proof {
            assert(lv.skip(i as int)[0] == lv[i as int]);
            assert(lv.skip(i as int).drop_first() =~= lv.skip(i + 1));
            assert(lines@[i as int]@ == lv[i as int]);
        }
        if lines[i].as_str().is_empty() {
            let ghost prev = partitions.deep_view();
            let ghost cur = current.deep_view();
            partitions.push(current);
            current = Vec::new();
            proof {
                assert(partitions.deep_view() =~= prev.push(cur));
                assert(current.deep_view() =~= Seq::<Seq<char>>::empty());
                assert(prev + (seq![cur] + partition_rec(lv.skip(i + 1), Seq::empty()))
                    =~= prev.push(cur) + partition_rec(lv.skip(i + 1), Seq::empty()));
            }
        } else {
            let ghost cur = current.deep_view();
            current.push(lines[i].clone());
            proof {
                assert(current.deep_view() =~= cur.push(lv[i as int]));
            }
        }
        i = i + 1;
    }
    proof {
        assert(lv.skip(lv.len() as int) =~= Seq::<Seq<char>>::empty());
    }
    if current.len() > 0 {
        let ghost prev = partitions.deep_view();
        let ghost cur = current.deep_view();
        partitions.push(current);
        proof {
            assert(partitions.deep_view() =~= prev.push(cur));
            assert(prev + seq![cur] =~= prev.push(cur));
        }
    } else {
        proof {
            assert(current.deep_view() =~= Seq::<Seq<char>>::empty());
            assert(partitions.deep_view() + Seq::<Seq<Seq<char>>>::empty() =~= partitions.deep_view());
        }
    }
    partitions
}

/// What reading every block yields: one elf per block, or the first block's
/// error.
pub open spec fn elfs_parse(parts: Seq<Seq<Seq<char>>>) -> Result<Seq<Seq<usize>>, ErrorModel>
    decreases parts.len(),
{
    if parts.len() == 0 {
        Result::Ok(Seq::empty())
    } else {
        match elf_parse(parts[0]) {
            Result::Err(e) => Result::Err(e),
            Result::Ok(v) => match elfs_parse(parts.drop_first()) {
                Result::Err(e) => Result::Err(e),
                Result::Ok(rest) => Result::Ok(seq![v] + rest),
            },
        }
    }
}

pub proof fn lemma_elfs_parse_len(parts: Seq<Seq<Seq<char>>>)
    ensures
        elfs_parse(parts) matches Result::Ok(elfs) ==> elfs.len() == parts.len(),
    decreases parts.len(),
{
    if parts.len() > 0 {
        lemma_elfs_parse_len(parts.drop_first());
    }
}

/// The ration models of an elf list.
pub open spec fn elfs_model(v: Seq<Elf>) -> Seq<Seq<usize>> {
    v.map_values(|e: Elf| rations_vals(e.rations@))
}

/// Partitions the lines at empty lines and reads each block as one elf.
#[verifier::loop_isolation(false)]
pub fn read_elfs(lines: Vec<String>) -> (r: Result<Vec<Elf>, Error>)
    ensures
        match r {
            Result::Ok(v) => elfs_parse(partition_spec(lines.deep_view())) == Result::<
                Seq<Seq<usize>>,
                ErrorModel,
            >::Ok(elfs_model(v@)),
            Result::Err(e) => elfs_parse(partition_spec(lines.deep_view())) == Result::<
                Seq<Seq<usize>>,
                ErrorModel,
            >::Err(e@),
        },
{
    let ghost pv = partition_spec(lines.deep_view());
    let parts = partition(lines);
    let mut elfs: Vec<Elf> = Vec::new();
    let mut i: usize = 0;
    proof {
        assert(pv.skip(0) =~= pv);
        assert(elfs_model(elfs@) =~= Seq::<Seq<usize>>::empty());
    }
    while i < parts.len()
        invariant
            0 <= i <= pv.len(),
            parts.deep_view() == pv,
            elfs_parse(pv) == match elfs_parse(pv.skip(i as int)) {
                Result::<Seq<Seq<usize>>, ErrorModel>::Ok(rest) => Result::<
                    Seq<Seq<usize>>,
                    ErrorModel,
                >::Ok(elfs_model(elfs@) + rest),
                Result::<Seq<Seq<usize>>, ErrorModel>::Err(e) => Result::<
                    Seq<Seq<usize>>,
                    ErrorModel,
                >::Err(e),
            },
        decreases pv.len() - i,
    {
        proof {
            assert(pv.skip(i as int)[0] == pv[i as int]);
            assert(pv.skip(i as int).drop_first() =~= pv.skip(i + 1));
            assert(parts@[i as int].deep_view() == pv[i as int]);
        }
        match Elf::from_lines(&parts[i]) {
            Result::Ok(e) => {
                let ghost prev = elfs_model(elfs@);
                let ghost m = rations_vals(e.rations@);
                elfs.push(e);
                proof {
                    assert(elfs_model(elfs@) =~= prev.push(m));
                    match elfs_parse(pv.skip(i + 1)) {
                        Result::Ok(rest) => {
                            assert(prev + (seq![m] + rest) =~= prev.push(m) + rest);
                        },
                        Result::Err(_) => {},
                    }
                }
            },
            Result::Err(e) => {
                return Result::Err(e);
            },
        }
        i = i + 1;
    }
    proof {
        assert(pv.skip(pv.len() as int) =~= Seq::<Seq<Seq<char>>>::empty());
        assert(elfs_model(elfs@) + Seq::<Seq<usize>>::empty() =~= elfs_model(elfs@));
    }
    Result::Ok(elfs)
}

/// The larger of two values.
pub open spec fn max2(a: int, b: int) -> int {
    if a >= b {
        a
    } else {
        b
    }
}

/// The greatest elf total of a non-empty list.
pub open spec fn max_sum(elfs: Seq<Seq<usize>>) -> int
    decreases elfs.len(),
{
    if elfs.len() <= 1 {
        sum_vals(elfs[0])
    } else {
        max2(max_sum(elfs.drop_last()), sum_vals(elfs.last()))
    }
}

/// Each elf's total, in list order.
pub open spec fn elf_totals(elfs: Seq<Seq<usize>>) -> Seq<usize> {
    elfs.map_values(|e: Seq<usize>| sum_vals(e) as usize)
}

/// Values sorted into non-increasing order.
pub open spec fn sorted_desc(s: Seq<usize>) -> bool {
    forall|i: int, j: int| 0 <= i <= j < s.len() ==> s[i] >= s[j]
}

/// The greatest value of a non-empty sequence.
pub open spec fn seq_max_val(s: Seq<usize>) -> usize
    decreases s.len(),
{
    if s.len() <= 1 {
        s[0]
    } else if s.last() >= seq_max_val(s.drop_last()) {
        s.last()
    } else {
        seq_max_val(s.drop_last())
    }
}

/// The sum of the three greatest values, multiplicity respected.
pub open spec fn top3_sum(s: Seq<usize>) -> int {
    let m1 = seq_max_val(s);
    let s1 = s.remove_value(m1);
    let m2 = seq_max_val(s1);
    let s2 = s1.remove_value(m2);
    m1 + m2 + seq_max_val(s2)
}

pub proof fn lemma_seq_max_props(s: Seq<usize>)
    requires
        s.len() > 0,
    ensures
        s.contains(seq_max_val(s)),
        forall|i: int| 0 <= i < s.len() ==> s[i] <= seq_max_val(s),
    decreases s.len(),
{
    if s.len() == 1 {
        assert(seq_max_val(s) == s[0]);
        assert(s.contains(s[0]));
    } else {
        lemma_seq_max_props(s.drop_last());
        let front = s.drop_last();
        let fi = choose|i: int| 0 <= i < front.len() && front[i] == seq_max_val(front);
        assert(s[fi] == front[fi]);
        if s.last() >= seq_max_val(front) {
            assert(seq_max_val(s) == s.last());
            assert(s.contains(s[s.len() - 1]));
        } else {
            assert(seq_max_val(s) == seq_max_val(front));
            assert(s.contains(s[fi]));
        }
        assert forall|i: int| 0 <= i < s.len() implies s[i] <= seq_max_val(s) by {
            if i < s.len() - 1 {
                assert(s[i] == front[i]);
            }
        }
    }
}

/// A sorted permutation opens with the greatest value, and the rest of it
/// is a permutation of the rest.
proof fn lemma_sorted_head_is_max(sorted: Seq<usize>, s: Seq<usize>)
    requires
        sorted_desc(sorted),
        sorted.to_multiset() == s.to_multiset(),
        s.len() > 0,
    ensures
        sorted.len() == s.len(),
        sorted[0] == seq_max_val(s),
        sorted.drop_first().to_multiset() == s.remove_value(seq_max_val(s)).to_multiset(),
        sorted_desc(sorted.drop_first()),
{
    broadcast use group_to_multiset_ensures;

    lemma_seq_max_props(s);
    assert(sorted.to_multiset().len() == sorted.len());
    assert(s.to_multiset().len() == s.len());
    let m = seq_max_val(s);
    assert(s.to_multiset().count(m) > 0);
    assert(sorted.contains(m));
    let mi = choose|i: int| 0 <= i < sorted.len() && sorted[i] == m;
    assert(sorted[0] >= sorted[mi]);
    assert(sorted.to_multiset().count(sorted[0]) > 0);
    assert(s.contains(sorted[0]));
    assert(sorted[0] <= m);
    s.index_of_first_ensures(m);
    let i = s.index_of_first(m)->0;
    assert(s.remove_value(m) == s.remove(i));
    assert(s.remove(i).to_multiset() == s.to_multiset().remove(m));
    assert(sorted.drop_first() =~= sorted.remove(0));
    assert(sorted.remove(0).to_multiset() == sorted.to_multiset().remove(sorted[0]));
    assert(forall|a: int, b: int|
        0 <= a <= b < sorted.drop_first().len() ==> #[trigger] sorted.drop_first()[a]
            >= #[trigger] sorted.drop_first()[b]);
}

/// In a sorted permutation of at least three values, the first three sum to
/// the three greatest of the original.
proof fn lemma_sorted_top3(sorted: Seq<usize>, s: Seq<usize>)
    requires
        sorted_desc(sorted),
        sorted.to_multiset() == s.to_multiset(),
        s.len() >= 3,
    ensures
        sorted.len() == s.len(),
        sorted[0] + sorted[1] + sorted[2] == top3_sum(s),
{
    broadcast use group_to_multiset_ensures;

    lemma_sorted_head_is_max(sorted, s);
    let m1 = seq_max_val(s);
    let s1 = s.remove_value(m1);
    s.index_of_first_ensures(m1);
    lemma_seq_max_props(s);
    assert(s1.len() == s.len() - 1);
    lemma_sorted_head_is_max(sorted.drop_first(), s1);
    let m2 = seq_max_val(s1);
    let s2 = s1.remove_value(m2);
    s1.index_of_first_ensures(m2);
    lemma_seq_max_props(s1);
    assert(s2.len() == s1.len() - 1);
    lemma_sorted_head_is_max(sorted.drop_first().drop_first(), s2);
    assert(sorted.drop_first()[0] == sorted[1]);
    assert(sorted.drop_first().drop_first()[0] == sorted[2]);
}

/// Sorts values into non-increasing order by insertion.
#[verifier::loop_isolation(false)]
fn sort_desc(v: Vec<usize>) -> (r: Vec<usize>)
    ensures
        r@.to_multiset() == v@.to_multiset(),
        sorted_desc(r@),
        r@.len() == v@.len(),
{
    broadcast use group_to_multiset_ensures;

    let mut out: Vec<usize> = Vec::new();
    let mut i: usize = 0;
    proof {
        assert(out@ =~= v@.take(0));
    }
    while i < v.len()
        invariant
            0 <= i <= v@.len(),
            out@.len() == i,
            sorted_desc(out@),
            out@.to_multiset() == v@.take(i as int).to_multiset(),
        decreases v@.len() - i,
    {
        let x = v[i];
        let mut j: usize = 0;
        while j < out.len() && out[j] >= x
            invariant
                0 <= j <= out@.len(),
                forall|k: int| 0 <= k < j ==> out@[k] >= x,
            decreases out@.len() - j,
        {
            j = j + 1;
        }
        let ghost prev = out@;
        out.insert(j, x);
        proof {
            assert(out@ == prev.insert(j as int, x));
            prev.insert_ensures(j as int, x);
            assert forall|a: int, b: int| 0 <= a <= b < out@.len() implies out@[a] >= out@[b] by {
                if b < j {
                    assert(out@[a] == prev[a] && out@[b] == prev[b]);
                } else if a > j {
                    assert(out@[a] == prev[a - 1] && out@[b] == prev[b - 1]);
                } else if a == j && b == j {
                } else if a < j && b == j {
                    assert(out@[a] == prev[a] && out@[b] == x);
                } else if a == j && b > j {
                    assert(out@[a] == x && out@[b] == prev[b - 1]);
                    assert(j < prev.len() ==> prev[j as int] < x);
                    assert(prev[b - 1] <= prev[j as int]);
                } else {
                    assert(out@[a] == prev[a] && out@[b] == prev[b - 1]);
                    assert(prev[a] >= x);
                    assert(j < prev.len() ==> prev[b - 1] <= prev[j as int]);
                }
            }
            assert(v@.take(i + 1).drop_last() =~= v@.take(i as int));
            assert(v@.take(i + 1) =~= v@.take(i as int).push(x));
            assert(out@.to_multiset() == v@.take(i + 1).to_multiset());
        }
        i = i + 1;
    }
    proof {
        assert(v@.take(v@.len() as int) =~= v@);
    }
    out
}

/// The day-1 solver.
#[derive(Debug)]
pub struct Day1;

impl Day1 {
    /// The puzzle's name.
    pub fn name(&self) -> (r: &'static str)
        ensures
            r@ == "Calorie Counting"@,
    {
        "Calorie Counting"
    }

    /// The greatest calorie total any elf carries.
    #[verifier::loop_isolation(false)]
    pub fn solve_part1(&self, lines: Vec<String>) -> (r: Result<String, SolverError>)
        requires
            lines.deep_view().len() > 0,
            elfs_parse(partition_spec(lines.deep_view())) matches Result::Ok(elfs) ==> forall|
                k: int,
            |
                0 <= k < elfs.len() ==> sum_vals(#[trigger] elfs[k]) <= usize::MAX,
        ensures
            match elfs_parse(partition_spec(lines.deep_view())) {
                Result::Ok(elfs) => r matches Result::Ok(s) && s@ == dec_str(max_sum(elfs)),
                Result::Err(m) => r matches Result::Err(SolverError::Day1(e)) && e@ == m,
            },
    {
        let ghost lv = lines.deep_view();
        proof {
            lemma_partition_nonempty(lv, Seq::empty());
            lemma_elfs_parse_len(partition_spec(lv));
        }
        let elfs = match read_elfs(lines) {
            Result::Ok(v) => v,
            Result::Err(e) => {
                return Result::Err(SolverError::Day1(e));
            },
        };
        let ghost model = elfs_model(elfs@);
        proof {
            assert(sum_vals(model[0]) <= usize::MAX);
            assert(model[0] == rations_vals(elfs@[0].rations@));
        }
        let mut best: usize = elfs[0].total_calories();
        let mut i: usize = 1;
        proof {
            assert(model.take(1).drop_last() =~= Seq::<Seq<usize>>::empty());
            assert(model.take(1)[0] == model[0]);
            assert(best == max_sum(model.take(1)));
        }
        while i < elfs.len()
            invariant
                1 <= i <= model.len(),
                best == max_sum(model.take(i as int)),
            decreases model.len() - i,
        {
            proof {
                assert(model.take(i + 1).drop_last() =~= model.take(i as int));
                assert(model.take(i + 1).last() == model[i as int]);
                assert(sum_vals(model[i as int]) <= usize::MAX);
                assert(model[i as int] == rations_vals(elfs@[i as int].rations@));
            }
            let t = elfs[i].total_calories();
            if t > best {
                best = t;
            }
            i = i + 1;
        }
        proof {
            assert(model.take(model.len() as int) =~= model);
        }
        Result::Ok(crate::digits::usize_to_string(best))
    }

    /// The combined calorie total of the three best-stocked elves.
    #[verifier::loop_isolation(false)]
    pub fn solve_part2(&self, lines: Vec<String>) -> (r: Result<String, SolverError>)
        requires
            elfs_parse(partition_spec(lines.deep_view())) matches Result::Ok(elfs) ==> (forall|
                k: int,
            |
                0 <= k < elfs.len() ==> sum_vals(#[trigger] elfs[k]) <= usize::MAX) && (elfs.len()
                >= 3 ==> top3_sum(elf_totals(elfs)) <= usize::MAX),
        ensures
            match elfs_parse(partition_spec(lines.deep_view())) {
                Result::Ok(elfs) => if elfs.len() < 3 {
                    r matches Result::Err(SolverError::Day1(e)) && e@ == ErrorModel::TooLitleElfs(
                        elfs.len() as usize,
                    )
                } else {
                    r matches Result::Ok(s) && s@ == dec_str(top3_sum(elf_totals(elfs)))
                },
                Result::Err(m) => r matches Result::Err(SolverError::Day1(e)) && e@ == m,
            },
    {
        let ghost lv = lines.deep_view();
        let elfs = match read_elfs(lines) {
            Result::Ok(v) => v,
            Result::Err(e) => {
                return Result::Err(SolverError::Day1(e));
            },
        };
        let ghost model = elfs_model(elfs@);
        let mut totals: Vec<usize> = Vec::new();
        let mut i: usize = 0;
        proof {
            assert(totals@ =~= elf_totals(model).take(0));
        }
        while i < elfs.len()
            invariant
                0 <= i <= model.len(),
                totals@ =~= elf_totals(model).take(i as int),
            decreases model.len() - i,
        {
            proof {
                assert(sum_vals(model[i as int]) <= usize::MAX);
                assert(model[i as int] == rations_vals(elfs@[i as int].rations@));
            }
            let t = elfs[i].total_calories();
            let ghost prev = totals@;
            totals.push(t);
            proof {
                assert(elf_totals(model).take(i + 1) =~= prev.push(t));
            }
            i = i + 1;
        }
        proof {
            assert(elf_totals(model).take(model.len() as int) =~= elf_totals(model));
        }
        if totals.len() < 3 {
            return Result::Err(SolverError::Day1(Error::TooLitleElfs(totals.len())));
        }
        let sorted = sort_desc(totals);
        proof {
            lemma_sorted_top3(sorted@, elf_totals(model));
        }
        let sum = sorted[0] + sorted[1] + sorted[2];
        Result::Ok(crate::digits::usize_to_string(sum))
    }

    /// The result each part must yield on the test fixture.
    pub fn test_expected(&self, part: usize) -> (r: &'static str)
        requires
            1 <= part <= 2,
        ensures
            part == 1 ==> r@ == "24000"@,
            part == 2 ==> r@ == "45000"@,
    {
        if part == 1 {
            "24000"
        } else {
            "45000"
        }
    }
}

/// The day-1 solver instance.
pub fn new() -> (r: Day1)
    ensures
        r == Day1,
{
    Day1
}

} // verus!
