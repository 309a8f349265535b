//! Student grade analysis: letter grades, the grade distribution, the highest
//! single score, and the ranking of students by average score.

use vstd::prelude::*;

verus! {

/// The highest score an exam can have.
pub const MAX_SCORE: u32 = 100;

/// The least average score of a top student.
pub const TOP_AVERAGE: u32 = 70;

/// A letter grade.
#[derive(Clone, Copy, PartialEq, Eq, Structural, Debug)]
pub enum Grade {
    A,
    B,
    C,
    D,
    F,
}

/// The grade of a score: A for 90 to 100, B for 80 to 89, C for 70 to 79,
/// D for 60 to 69, F below 60 and above the maximum score.
pub open spec fn grade_of(score: u32) -> Grade {
    if score <= 59 {
        Grade::F
    } else if score <= 69 {
        Grade::D
    } else if score <= 79 {
        Grade::C
    } else if score <= 89 {
        Grade::B
    } else if score <= MAX_SCORE {
        Grade::A
    } else {
        Grade::F
    }
}

/// The letter that names a grade.
pub open spec fn grade_letter(g: Grade) -> char {
    match g {
        Grade::A => 'A',
        Grade::B => 'B',
        Grade::C => 'C',
        Grade::D => 'D',
        Grade::F => 'F',
    }
}

impl Grade {
    /// The grade of a score.
    pub fn get_grade(score: u32) -> (g: Grade)
        ensures
            g == grade_of(score),
    {
        if score <= 59 {
            Grade::F
        } else if score <= 69 {
            Grade::D
        } else if score <= 79 {
            Grade::C
        } else if score <= 89 {
            Grade::B
        } else if score <= MAX_SCORE {
            Grade::A
        } else {
            Grade::F
        }
    }
}

impl From<Grade> for char {
    fn from(value: Grade) -> (c: char) {
        match value {
            Grade::A => 'A',
            Grade::B => 'B',
            Grade::C => 'C',
            Grade::D => 'D',
            Grade::F => 'F',
        }
    }
}

impl vstd::std_specs::convert::FromSpecImpl<Grade> for char {
    open spec fn obeys_from_spec() -> bool {
        true
    }

    open spec fn from_spec(v: Grade) -> char {
        grade_letter(v)
    }
}

/// A student and the scores of their exams.
pub struct Student {
    name: String,
    scores: Vec<u32>,
}

/// A student as mathematical values.
pub struct StudentView {
    pub name: Seq<char>,
    pub scores: Seq<u32>,
}

impl View for Student {
    type V = StudentView;

    closed spec fn view(&self) -> StudentView {
        StudentView { name: self.name@, scores: self.scores@ }
    }
}

/// The sum of a sequence of scores.
pub open spec fn score_sum(scores: Seq<u32>) -> int
    decreases scores.len(),
{
    if scores.len() == 0 {
        0
    } else {
        score_sum(scores.drop_last()) + scores.last()
    }
}

impl Student {
    pub fn new(name: String, scores: Vec<u32>) -> (s: Student)
        ensures
            s@.name == name@,
            s@.scores == scores@,
    {
        Student { name, scores }
    }

    pub fn name(&self) -> (r: &String)
        ensures
            r@ == self@.name,
    {
        &self.name
    }

    pub fn scores(&self) -> (r: &Vec<u32>)
        ensures
            r@ == self@.scores,
    {
        &self.scores
    }

    /// The grade of each score, in order.
    pub fn grades(&self) -> (r: Vec<Grade>)
        ensures
            r@ == self@.scores.map_values(|s: u32| grade_of(s)),
    {
        let mut r: Vec<Grade> = Vec::new();
        let n = self.scores.len();
        let mut i: usize = 0;
        while i < n
            invariant
                n == self.scores.len(),
                0 <= i <= n,
                r@ == self@.scores.take(i as int).map_values(|s: u32| grade_of(s)),
            decreases n - i,
        {
            r.push(Grade::get_grade(self.scores[i]));
            proof {
                assert(self@.scores.take(i + 1).map_values(|s: u32| grade_of(s)) =~= self@.scores.take(
                    i as int,
                ).map_values(|s: u32| grade_of(s)).push(grade_of(self@.scores[i as int])));
            }
            i = i + 1;
        }
        proof {
            assert(self@.scores.take(n as int) =~= self@.scores);
        }
        r
    }

    /// The sum of the scores, when it fits in a `u32`.
    pub fn total_score(&self) -> (r: Option<u32>)
        ensures
            match r {
                Some(t) => t == score_sum(self@.scores),
                None => score_sum(self@.scores) > u32::MAX,
            },
    {
        let n = self.scores.len();
        let mut total: u32 = 0;
        let mut i: usize = 0;
        while i < n
            invariant
                n == self.scores.len(),
                0 <= i <= n,
                total == score_sum(self@.scores.take(i as int)),
            decreases n - i,
        {
            proof {
                assert(self@.scores.take(i + 1).drop_last() =~= self@.scores.take(i as int));
            }
            match total.checked_add(self.scores[i]) {
                Some(t) => {
                    total = t;
                },
                None => {
                    proof {
                        lemma_score_sum_prefix(self@.scores, i + 1);
                    }
                    return None;
                },
            }
            i = i + 1;
        }
        proof {
            assert(self@.scores.take(n as int) =~= self@.scores);
        }
        Some(total)
    }
}

/// Sums of prefixes never exceed the sum of the whole.
proof fn lemma_score_sum_prefix(scores: Seq<u32>, k: int)
    requires
        0 <= k <= scores.len(),
    ensures
        score_sum(scores.take(k)) <= score_sum(scores),
        score_sum(scores) >= 0,
    decreases scores.len(),
{
    if k == scores.len() {
        assert(scores.take(k) =~= scores);
        lemma_score_sum_nonneg(scores);
    } else {
        assert(scores.drop_last().take(k) =~= scores.take(k));
        lemma_score_sum_prefix(scores.drop_last(), k);
    }
}

proof fn lemma_score_sum_nonneg(scores: Seq<u32>)
    ensures
        score_sum(scores) >= 0,
    decreases scores.len(),
{
    if scores.len() > 0 {
        lemma_score_sum_nonneg(scores.drop_last());
    }
}

/// The scores of all students, student after student.
pub open spec fn all_scores(ss: Seq<Student>) -> Seq<u32>
    decreases ss.len(),
{
    if ss.len() == 0 {
        Seq::empty()
    } else {
        all_scores(ss.drop_last()) + ss.last()@.scores
    }
}

/// How many of the scores have grade `g`.
pub open spec fn grade_count(scores: Seq<u32>, g: Grade) -> nat
    decreases scores.len(),
{
    if scores.len() == 0 {
        0
    } else {
        grade_count(scores.drop_last(), g) + if grade_of(scores.last()) == g {
            1nat
        } else {
            0nat
        }
    }
}

/// The grade of each position of the tally.
pub open spec fn grade_at(k: int) -> Grade {
    if k == 0 {
        Grade::A
    } else if k == 1 {
        Grade::B
    } else if k == 2 {
        Grade::C
    } else if k == 3 {
        Grade::D
    } else {
        Grade::F
    }
}

/// For each grade from A to F, in that order, the grade's letter and the
/// number of scores with that grade (zero included).
pub open spec fn distribution(scores: Seq<u32>) -> Seq<(char, int)> {
    Seq::new(5, |k: int| (grade_letter(grade_at(k)), grade_count(scores, grade_at(k)) as int))
}

proof fn lemma_grade_count_bound(scores: Seq<u32>, g: Grade)
    ensures
        grade_count(scores, g) <= scores.len(),
    decreases scores.len(),
{
    if scores.len() > 0 {
        lemma_grade_count_bound(scores.drop_last(), g);
    }
}

proof fn lemma_all_scores_prefix(ss: Seq<Student>, i: int)
    requires
        0 <= i < ss.len(),
    ensures
        all_scores(ss.take(i + 1)) == all_scores(ss.take(i)) + ss[i]@.scores,
        all_scores(ss.take(i + 1)).len() <= all_scores(ss).len(),
    decreases ss.len(),
{
    assert(ss.take(i + 1).drop_last() =~= ss.take(i));
    if i + 1 == ss.len() {
        assert(ss.take(i + 1) =~= ss);
    } else {
        assert(ss.drop_last().take(i + 1) =~= ss.take(i + 1));
        lemma_all_scores_prefix(ss.drop_last(), i);
    }
}

fn tally_index(g: Grade) -> (k: usize)
    ensures
        k < 5,
        grade_at(k as int) == g,
{
    match g {
        Grade::A => 0,
        Grade::B => 1,
        Grade::C => 2,
        Grade::D => 3,
        Grade::F => 4,
    }
}

fn tally_letter(k: usize) -> (c: char)
    requires
        k < 5,
    ensures
        c == grade_letter(grade_at(k as int)),
{
    if k == 0 {
        'A'
    } else if k == 1 {
        'B'
    } else if k == 2 {
        'C'
    } else if k == 3 {
        'D'
    } else {
        'F'
    }
}

/// Counts how many scores, over all students, fall into each grade; lists
/// every grade from A to F, in letter order, with its count (zero when no
/// score has that grade).
pub fn grade_distribution(students: &[Student]) -> (r: Vec<(char, usize)>)
    requires
        all_scores(students@).len() <= usize::MAX,
    ensures
        r@.map_values(|p: (char, usize)| (p.0, p.1 as int)) == distribution(all_scores(students@)),
{
    let ghost ss = students@;
    let mut tally: Vec<usize> = vec![0, 0, 0, 0, 0];
    let n = students.len();
    let mut i: usize = 0;
    proof {
        assert(ss.take(0) =~= Seq::<Student>::empty());
        assert forall|k: int| 0 <= k < 5 implies tally@[k] == grade_count(all_scores(ss.take(0)), grade_at(k)) by {}
    }
    while i < n
        invariant
            ss == students@,
            n == ss.len(),
            0 <= i <= n,
            all_scores(ss).len() <= usize::MAX,
            tally@.len() == 5,
            forall|k: int| 0 <= k < 5 ==> tally@[k] == grade_count(all_scores(ss.take(i as int)), grade_at(k)),
        decreases n - i,
    {
        let scores = students[i].scores();
        let m = scores.len();
        let ghost base = all_scores(ss.take(i as int));
        let mut j: usize = 0;
        proof {
            lemma_all_scores_prefix(ss, i as int);
            assert(scores@.take(0) =~= Seq::<u32>::empty());
            assert(base + scores@.take(0) =~= base);
        }
        while j < m
            invariant
                ss == students@,
                0 <= i < n,
                n == ss.len(),
                scores@ == ss[i as int]@.scores,
                m == scores@.len(),
                0 <= j <= m,
                base == all_scores(ss.take(i as int)),
                base.len() + m <= all_scores(ss).len(),
                all_scores(ss).len() <= usize::MAX,
                tally@.len() == 5,
                forall|k: int| 0 <= k < 5 ==> tally@[k] == grade_count(base + scores@.take(j as int), grade_at(k)),
            decreases m - j,
        {
            let ghost prefix = base + scores@.take(j as int);
            let ghost next = base + scores@.take(j + 1);
            proof {
                assert(next.drop_last() =~= prefix);
                assert(next.last() == scores@[j as int]);
            }
            let k = tally_index(Grade::get_grade(scores[j]));
            proof {
                lemma_grade_count_bound(prefix, grade_at(k as int));
            }
            let old_count = tally[k];
            tally.set(k, old_count + 1);
            proof {
                assert forall|t: int| 0 <= t < 5 implies tally@[t] == grade_count(next, grade_at(t)) by {
                    if t != k {
                        assert(grade_at(t) != grade_at(k as int));
                    }
                }
            }
            j = j + 1;
        }
        proof {
            assert(scores@.take(m as int) =~= scores@);
        }
        i = i + 1;
    }
    proof {
        assert(ss.take(n as int) =~= ss);
    }
    let mut r: Vec<(char, usize)> = Vec::new();
    let mut k: usize = 0;
    let ghost all = all_scores(ss);
    proof {
        assert(r@.map_values(|p: (char, usize)| (p.0, p.1 as int)) =~= distribution(all).take(0));
    }
    while k < 5
        invariant
            0 <= k <= 5,
            tally@.len() == 5,
            forall|t: int| 0 <= t < 5 ==> tally@[t] == grade_count(all, grade_at(t)),
            r@.map_values(|p: (char, usize)| (p.0, p.1 as int)) == distribution(all).take(k as int),
        decreases 5 - k,
    {
        let ghost before = r@.map_values(|p: (char, usize)| (p.0, p.1 as int));
        let letter = tally_letter(k);
        let count = tally[k];
        r.push((letter, count));
        proof {
            assert(count == grade_count(all, grade_at(k as int)));
            assert(distribution(all)[k as int] == (letter, count as int));
            assert(r@.map_values(|p: (char, usize)| (p.0, p.1 as int)) =~= before.push((letter, count as int)));
            assert(r@.map_values(|p: (char, usize)| (p.0, p.1 as int)) =~= distribution(all).take(
                k + 1,
            ));
        }
        k = k + 1;
    }
    proof {
        assert(distribution(all).take(5) =~= distribution(all));
    }
    r
}

/// A student's name paired with each of their scores, in order.
pub open spec fn student_pairs(st: StudentView) -> Seq<(Seq<char>, u32)> {
    Seq::new(st.scores.len(), |j: int| (st.name, st.scores[j]))
}

/// Every (name, score) pair of all students, student after student.
pub open spec fn score_pairs(ss: Seq<Student>) -> Seq<(Seq<char>, u32)>
    decreases ss.len(),
{
    if ss.len() == 0 {
        Seq::empty()
    } else {
        score_pairs(ss.drop_last()) + student_pairs(ss.last()@)
    }
}

/// `(name, score)` stands at a position of `pairs` whose score no pair
/// exceeds, and every later pair has a lower score: it is the last of the
/// highest.
pub open spec fn is_last_highest(pairs: Seq<(Seq<char>, u32)>, name: Seq<char>, score: u32) -> bool {
    exists|q: int|
        0 <= q < pairs.len() && pairs[q] == (name, score) && (forall|t: int|
            0 <= t < pairs.len() ==> (#[trigger] pairs[t]).1 <= score) && (forall|t: int|
            q < t < pairs.len() ==> (#[trigger] pairs[t]).1 < score)
}

proof fn lemma_score_pairs_prefix(ss: Seq<Student>, i: int)
    requires
        0 <= i < ss.len(),
    ensures
        score_pairs(ss.take(i + 1)) == score_pairs(ss.take(i)) + student_pairs(ss[i]@),
{
    assert(ss.take(i + 1).drop_last() =~= ss.take(i));
}

/// The name and value of the highest single score over all students; when
/// several scores are equally highest, the last of them.  `None` when there
/// are no scores at all.
pub fn highest_single_score(students: &[Student]) -> (r: Option<(String, u32)>)
    ensures
        match r {
            None => score_pairs(students@).len() == 0,
            Some((name, score)) => is_last_highest(score_pairs(students@), name@, score),
        },
{
    let ghost ss = students@;
    let n = students.len();
    let mut best: Option<(usize, u32)> = None;
    let ghost mut q: int = 0;
    let mut i: usize = 0;
    proof {
        assert(ss.take(0) =~= Seq::<Student>::empty());
    }
    while i < n
        invariant
            ss == students@,
            n == ss.len(),
            0 <= i <= n,
            ({
                let pairs = score_pairs(ss.take(i as int));
                match best {
                    None => pairs.len() == 0,
                    Some((b, score)) => {
                        &&& b < n
                        &&& 0 <= q < pairs.len()
                        &&& pairs[q] == (ss[b as int]@.name, score)
                        &&& forall|t: int| 0 <= t < pairs.len() ==> (#[trigger] pairs[t]).1 <= score
                        &&& forall|t: int| q < t < pairs.len() ==> (#[trigger] pairs[t]).1 < score
                    },
                }
            }),
        decreases n - i,
    {
        let scores = students[i].scores();
        let m = scores.len();
        let ghost base = score_pairs(ss.take(i as int));
        let ghost sp = student_pairs(ss[i as int]@);
        let mut j: usize = 0;
        proof {
            lemma_score_pairs_prefix(ss, i as int);
            assert(base + sp.take(0) =~= base);
        }
        while j < m
            invariant
                ss == students@,
                n == ss.len(),
                0 <= i < n,
                scores@ == ss[i as int]@.scores,
                m == scores@.len(),
                sp == student_pairs(ss[i as int]@),
                0 <= j <= m,
                ({
                    let pairs = base + sp.take(j as int);
                    match best {
                        None => pairs.len() == 0,
                        Some((b, score)) => {
                            &&& b < n
                            &&& 0 <= q < pairs.len()
                            &&& pairs[q] == (ss[b as int]@.name, score)
                            &&& forall|t: int| 0 <= t < pairs.len() ==> (#[trigger] pairs[t]).1 <= score
                            &&& forall|t: int| q < t < pairs.len() ==> (#[trigger] pairs[t]).1 < score
                        },
                    }
                }),
            decreases m - j,
        {
            let ghost prefix = base + sp.take(j as int);
            let ghost next = base + sp.take(j + 1);
            proof {
                assert(next =~= prefix.push((ss[i as int]@.name, scores@[j as int])));
            }
            let score = scores[j];
            let replace = match best {
                None => true,
                Some((_, top)) => score >= top,
            };
            if replace {
                best = Some((i, score));
                proof {
                    q = prefix.len() as int;
                }
            }
            proof {
                match best {
                    None => {},
                    Some((b, top)) => {
                        assert(next[q] == (ss[b as int]@.name, top));
                        assert forall|t: int| 0 <= t < next.len() implies (#[trigger] next[t]).1 <= top by {
                            if t < prefix.len() {
                                assert(next[t] == prefix[t]);
                            }
                        }
                        assert forall|t: int| q < t < next.len() implies (#[trigger] next[t]).1 < top by {
                            if t < prefix.len() {
                                assert(next[t] == prefix[t]);
                            }
                        }
                    },
                }
            }
            j = j + 1;
        }
        proof {
            assert(sp.take(m as int) =~= sp);
        }
        i = i + 1;
    }
    proof {
        assert(ss.take(n as int) =~= ss);
    }
    match best {
        None => None,
        Some((b, score)) => {
            let name = students[b].name().clone();
            proof {
                assert(score_pairs(ss)[q] == (name@, score));
            }
            Some((name, score))
        },
    }
}

/// The numerator of a student's average score (zero without scores).
pub open spec fn avg_num(st: StudentView) -> int {
    if st.scores.len() > 0 {
        score_sum(st.scores)
    } else {
        0
    }
}

/// The denominator of a student's average score (one without scores).
pub open spec fn avg_den(st: StudentView) -> int {
    if st.scores.len() > 0 {
        st.scores.len() as int
    } else {
        1
    }
}

/// `a`'s average score is higher than `b`'s; a student without scores
/// counts as averaging zero.
pub open spec fn higher_average(a: StudentView, b: StudentView) -> bool {
    avg_num(a) * avg_den(b) > avg_num(b) * avg_den(a)
}

/// Student `i` comes before student `j` in the ranking: a higher average,
/// or the same average and an earlier position.
pub open spec fn ranks_before(ss: Seq<Student>, i: usize, j: usize) -> bool {
    higher_average(ss[i as int]@, ss[j as int]@) || (!higher_average(ss[j as int]@, ss[i as int]@)
        && i < j)
}

/// `r` lists every student position once, by average score from highest
/// to lowest, equal averages in the order the students are given.
pub open spec fn is_ranking(ss: Seq<Student>, r: Seq<usize>) -> bool {
    &&& r.len() == ss.len()
    &&& forall|t: int| 0 <= t < r.len() ==> (#[trigger] r[t]) < ss.len()
    &&& r.no_duplicates()
    &&& forall|a: int, b: int| 0 <= a < b < r.len() ==> ranks_before(ss, #[trigger] r[a], #[trigger] r[b])
}

/// A student's average score is at least the top average.
pub open spec fn reaches_top_average(st: StudentView) -> bool {
    avg_num(st) >= TOP_AVERAGE * avg_den(st)
}

/// The positions of `r` whose students reach the top average, in order.
pub open spec fn top_of(ss: Seq<Student>, r: Seq<usize>) -> Seq<usize>
    decreases r.len(),
{
    if r.len() == 0 {
        Seq::empty()
    } else {
        top_of(ss, r.drop_last()) + if reaches_top_average(ss[r.last() as int]@) {
            seq![r.last()]
        } else {
            Seq::empty()
        }
    }
}

proof fn lemma_avg_parts(st: StudentView)
    ensures
        avg_num(st) >= 0,
        avg_den(st) >= 1,
{
    lemma_score_sum_nonneg(st.scores);
}

proof fn lemma_higher_through(a: StudentView, b: StudentView, c: StudentView)
    requires
        higher_average(a, b),
        !higher_average(c, b),
    ensures
        higher_average(a, c),
{
    lemma_avg_parts(a);
    lemma_avg_parts(b);
    lemma_avg_parts(c);
    let (an, ad, bn, bd, cn, cd) = (avg_num(a), avg_den(a), avg_num(b), avg_den(b), avg_num(c), avg_den(c));
    assert(an * cd > cn * ad) by (nonlinear_arith)
        requires
            an * bd > bn * ad,
            cn * bd <= bn * cd,
            ad >= 1,
            bd >= 1,
            cd >= 1,
            an >= 0,
            bn >= 0,
            cn >= 0,
    {
        assert(an * bd * cd > bn * ad * cd);
        assert(bn * cd * ad >= cn * bd * ad);
        assert(an * cd * bd > cn * ad * bd);
    }
}

proof fn lemma_higher_asym(a: StudentView, b: StudentView)
    ensures
        !(higher_average(a, b) && higher_average(b, a)),
{
}

/// Whether student `a`, whose average is `an / ad`, averages higher than
/// student `b`.
fn averages_higher(an: u32, ad: usize, bn: u32, bd: usize) -> (r: bool)
    ensures
        r == (an as int * bd as int > bn as int * ad as int),
{
    proof {
        assert(an as int * bd as int <= 0xffff_ffff * 0xffff_ffff_ffff_ffff) by (nonlinear_arith)
            requires
                0 <= an <= 0xffff_ffff,
                0 <= bd <= 0xffff_ffff_ffff_ffff,
        ;
        assert(bn as int * ad as int <= 0xffff_ffff * 0xffff_ffff_ffff_ffff) by (nonlinear_arith)
            requires
                0 <= bn <= 0xffff_ffff,
                0 <= ad <= 0xffff_ffff_ffff_ffff,
        ;
    }
    let x = (an as u128) * (bd as u128);
    let y = (bn as u128) * (ad as u128);
    x > y
}

/// The numerator and denominator of a student's average.
fn average_parts(st: &Student) -> (r: (u32, usize))
    requires
        score_sum(st@.scores) <= u32::MAX,
    ensures
        r.0 == avg_num(st@),
        r.1 == avg_den(st@),
{
    let n = st.scores().len();
    if n == 0 {
        (0, 1)
    } else {
        match st.total_score() {
            Some(t) => (t, n),
            None => (0, n),
        }
    }
}

/// The positions of the students ordered by average score, highest first;
/// students with equal averages keep the order they are given in.  A student without scores
/// counts as averaging zero.
pub fn ranking_by_average(students: &[Student]) -> (r: Vec<usize>)
    requires
        forall|i: int| 0 <= i < students@.len() ==> score_sum((#[trigger] students@[i])@.scores) <= u32::MAX,
    ensures
        is_ranking(students@, r@),
{
    let ghost ss = students@;
    let n = students.len();
    let mut nums: Vec<u32> = Vec::new();
    let mut dens: Vec<usize> = Vec::new();
    let mut i: usize = 0;
    while i < n
        invariant
            ss == students@,
            n == ss.len(),
            0 <= i <= n,
            forall|t: int| 0 <= t < ss.len() ==> score_sum((#[trigger] ss[t])@.scores) <= u32::MAX,
            nums@.len() == i,
            dens@.len() == i,
            forall|t: int| 0 <= t < i ==> nums@[t] == avg_num((#[trigger] ss[t])@) && dens@[t] == avg_den(ss[t]@),
        decreases n - i,
    {
        let (a, b) = average_parts(&students[i]);
        nums.push(a);
        dens.push(b);
        i = i + 1;
    }
    let mut r: Vec<usize> = Vec::new();
    let mut k: usize = 0;
    while k < n
        invariant
            ss == students@,
            n == ss.len(),
            0 <= k <= n,
            nums@.len() == n,
            dens@.len() == n,
            forall|t: int| 0 <= t < n ==> nums@[t] == avg_num((#[trigger] ss[t])@) && dens@[t] == avg_den(ss[t]@),
            r@.len() == k,
            forall|t: int| 0 <= t < r@.len() ==> (#[trigger] r@[t]) < k,
            r@.no_duplicates(),
            forall|a: int, b: int| 0 <= a < b < r@.len() ==> ranks_before(ss, #[trigger] r@[a], #[trigger] r@[b]),
        decreases n - k,
    {
        let mut pos: usize = 0;
        while pos < k
            invariant
                ss == students@,
                n == ss.len(),
                0 <= k < n,
                0 <= pos <= k,
                r@.len() == k,
                nums@.len() == n,
                dens@.len() == n,
                forall|t: int| 0 <= t < n ==> nums@[t] == avg_num((#[trigger] ss[t])@) && dens@[t] == avg_den(ss[t]@),
                forall|t: int| 0 <= t < r@.len() ==> (#[trigger] r@[t]) < k,
                forall|t: int| 0 <= t < pos ==> !higher_average(ss[k as int]@, ss[(#[trigger] r@[t]) as int]@),
            ensures
                0 <= pos <= k,
                forall|t: int| 0 <= t < pos ==> !higher_average(ss[k as int]@, ss[(#[trigger] r@[t]) as int]@),
                pos < k ==> higher_average(ss[k as int]@, ss[r@[pos as int] as int]@),
            decreases k - pos,
        {
            let other = r[pos];
            if averages_higher(nums[k], dens[k], nums[other], dens[other]) {
                break;
            }
            pos = pos + 1;
        }
        let ghost old_r = r@;
        r.insert(pos, k);
        proof {
            let nr = r@;
            assert(nr == old_r.insert(pos as int, k));
            assert forall|t: int| 0 <= t < nr.len() implies (#[trigger] nr[t]) < k + 1 by {
                if t < pos {
                    assert(nr[t] == old_r[t]);
                } else if t > pos {
                    assert(nr[t] == old_r[t - 1]);
                }
            }
            assert forall|a: int, b: int| 0 <= a < nr.len() && 0 <= b < nr.len() && a != b implies nr[a] != nr[b] by {
                if a != pos && b != pos {
                    let oa = if a < pos { a } else { a - 1 };
                    let ob = if b < pos { b } else { b - 1 };
                    assert(nr[a] == old_r[oa]);
                    assert(nr[b] == old_r[ob]);
                } else if a == pos {
                    let ob = if b < pos { b } else { b - 1 };
                    assert(nr[b] == old_r[ob]);
                } else {
                    let oa = if a < pos { a } else { a - 1 };
                    assert(nr[a] == old_r[oa]);
                }
            }
            assert forall|a: int, b: int| 0 <= a < b < nr.len() implies ranks_before(ss, #[trigger] nr[a], #[trigger] nr[b]) by {
                if b < pos {
                    assert(nr[a] == old_r[a] && nr[b] == old_r[b]);
                } else if b == pos {
                    assert(nr[a] == old_r[a]);
                    assert(!higher_average(ss[k as int]@, ss[old_r[a] as int]@));
                } else if a > pos {
                    assert(nr[a] == old_r[a - 1] && nr[b] == old_r[b - 1]);
                } else if a == pos {
                    assert(nr[b] == old_r[b - 1]);
                    let first = old_r[pos as int];
                    let later = old_r[b - 1];
                    if b - 1 > pos {
                        assert(ranks_before(ss, first, later));
                        lemma_higher_asym(ss[first as int]@, ss[later as int]@);
                        lemma_higher_through(ss[k as int]@, ss[first as int]@, ss[later as int]@);
                    }
                } else {
                    assert(nr[a] == old_r[a] && nr[b] == old_r[b - 1]);
                }
            }
        }
        k = k + 1;
    }
    r
}

/// The ranking of the students that reach the top average: highest average
/// first, equal averages in the order the students are given.
pub fn top_student_ranking(students: &[Student]) -> (r: Vec<usize>)
    requires
        forall|i: int| 0 <= i < students@.len() ==> score_sum((#[trigger] students@[i])@.scores) <= u32::MAX,
    ensures
        exists|all: Seq<usize>| is_ranking(students@, all) && r@ == top_of(students@, all),
        forall|t: int|
            0 <= t < r@.len() ==> #[trigger] r@[t] < students@.len() && averages_at_least_top(
                students@[r@[t] as int]@,
            ),
        forall|i: int|
            0 <= i < students@.len() && averages_at_least_top(#[trigger] students@[i]@) ==> r@.contains(
                i as usize,
            ),
        forall|a: int, b: int| 0 <= a < b < r@.len() ==> ranks_before(students@, #[trigger] r@[a], #[trigger] r@[b]),
        r@.no_duplicates(),
{
    let ranking = ranking_by_average(students);
    let n = ranking.len();
    let mut r: Vec<usize> = Vec::new();
    let mut i: usize = 0;
    proof {
        assert(ranking@.take(0) =~= Seq::<usize>::empty());
    }
    while i < n
        invariant
            n == ranking@.len(),
            is_ranking(students@, ranking@),
            forall|t: int| 0 <= t < students@.len() ==> score_sum((#[trigger] students@[t])@.scores) <= u32::MAX,
            0 <= i <= n,
            r@ == top_of(students@, ranking@.take(i as int)),
        decreases n - i,
    {
        let idx = ranking[i];
        let (num, den) = average_parts(&students[idx]);
        let ghost before = r@;
        let keep = (num as u128) >= (TOP_AVERAGE as u128) * (den as u128);
        if keep {
            r.push(idx);
        }
        proof {
            let t = ranking@.take(i + 1);
            assert(t.drop_last() =~= ranking@.take(i as int));
            assert(t.last() == idx);
            assert(r@ =~= top_of(students@, t));
        }
        i = i + 1;
    }
    proof {
        assert(ranking@.take(n as int) =~= ranking@);
        lemma_top_students_are_ranking_filtered(students@, ranking@);
    }
    r
}

/// The sum of the counts of a distribution.
pub open spec fn entries_total(e: Seq<(char, int)>) -> int
    decreases e.len(),
{
    if e.len() == 0 {
        0
    } else {
        entries_total(e.drop_last()) + e.last().1
    }
}

proof fn lemma_grade_counts_total(scores: Seq<u32>)
    ensures
        grade_count(scores, Grade::A) + grade_count(scores, Grade::B) + grade_count(scores, Grade::C)
            + grade_count(scores, Grade::D) + grade_count(scores, Grade::F) == scores.len(),
    decreases scores.len(),
{
    if scores.len() > 0 {
        lemma_grade_counts_total(scores.drop_last());
    }
}

/// Every score falls into exactly one grade: the counts of the grade
/// distribution add up to the number of scores.
pub proof fn lemma_distribution_counts_every_score(scores: Seq<u32>)
    ensures
        entries_total(distribution(scores)) == scores.len(),
{
    lemma_grade_counts_total(scores);
    let d = distribution(scores);
    assert(d.drop_last().drop_last().drop_last().drop_last().drop_last() =~= Seq::<(char, int)>::empty());
    assert(entries_total(d) == d[0].1 + d[1].1 + d[2].1 + d[3].1 + d[4].1) by {
        reveal_with_fuel(entries_total, 6);
    }
}

proof fn lemma_top_of_members(ss: Seq<Student>, r: Seq<usize>)
    ensures
        forall|t: int| 0 <= t < top_of(ss, r).len() ==> reaches_top_average(ss[(#[trigger] top_of(ss, r)[t]) as int]@)
            && r.contains(top_of(ss, r)[t]),
    decreases r.len(),
{
    if r.len() > 0 {
        lemma_top_of_members(ss, r.drop_last());
        let prev = top_of(ss, r.drop_last());
        assert forall|t: int| 0 <= t < top_of(ss, r).len() implies reaches_top_average(ss[(#[trigger] top_of(ss, r)[t]) as int]@)
            && r.contains(top_of(ss, r)[t]) by {
            if t < prev.len() {
                assert(top_of(ss, r)[t] == prev[t]);
                let u = choose|u: int| 0 <= u < r.drop_last().len() && r.drop_last()[u] == prev[t];
                assert(r[u] == prev[t]);
            } else {
                assert(top_of(ss, r)[t] == r.last());
                assert(r[r.len() - 1] == r.last());
            }
        }
    }
}

/// Every top student reaches the top average, and comes from the ranking.
pub proof fn lemma_top_students_reach_top_average(ss: Seq<Student>, r: Seq<usize>)
    ensures
        forall|t: int| 0 <= t < top_of(ss, r).len() ==> reaches_top_average(ss[(#[trigger] top_of(ss, r)[t]) as int]@),
        forall|t: int| 0 <= t < top_of(ss, r).len() ==> r.contains(#[trigger] top_of(ss, r)[t]),
{
    lemma_top_of_members(ss, r);
}

spec fn listed(r: Seq<usize>, i: int) -> bool {
    exists|p: int| 0 <= p < r.len() && r[p] as int == i
}

proof fn lemma_ranking_covers(ss: Seq<Student>, r: Seq<usize>)
    requires
        is_ranking(ss, r),
    ensures
        forall|i: int| 0 <= i < ss.len() ==> #[trigger] listed(r, i),
{
    let ri = r.map_values(|x: usize| x as int);
    assert forall|a: int, b: int| 0 <= a < ri.len() && 0 <= b < ri.len() && a != b implies ri[a] != ri[b] by {
        assert(r[a] != r[b]);
    }
    assert(ri.no_duplicates());
    ri.unique_seq_to_set();
    let full = vstd::set_lib::set_int_range(0, ss.len() as int);
    vstd::set_lib::lemma_int_range(0, ss.len() as int);
    assert forall|x: int| ri.to_set().contains(x) implies full.contains(x) by {
        let p = choose|p: int| 0 <= p < ri.len() && ri[p] == x;
        assert(r[p] < ss.len());
    }
    vstd::set_lib::lemma_len_subset(ri.to_set(), full);
    vstd::set_lib::lemma_subset_equality(ri.to_set(), full);
    assert forall|i: int| 0 <= i < ss.len() implies #[trigger] listed(r, i) by {
        assert(full.contains(i));
        assert(ri.to_set().contains(i));
        let p = choose|p: int| 0 <= p < ri.len() && ri[p] == i;
        assert(r[p] as int == i);
    }
}

proof fn lemma_ranks_before_asym(ss: Seq<Student>, a: usize, b: usize)
    requires
        a != b,
    ensures
        !(ranks_before(ss, a, b) && ranks_before(ss, b, a)),
{
    lemma_higher_asym(ss[a as int]@, ss[b as int]@);
}

/// The ranking is determined: two rankings of the same students are equal.
pub proof fn lemma_ranking_is_unique(ss: Seq<Student>, r1: Seq<usize>, r2: Seq<usize>)
    requires
        is_ranking(ss, r1),
        is_ranking(ss, r2),
    ensures
        r1 == r2,
{
    lemma_ranking_covers(ss, r1);
    lemma_ranking_covers(ss, r2);
    if exists|k: int| 0 <= k < r1.len() && r1[k] != r2[k] {
        let k0 = choose|k: int| 0 <= k < r1.len() && r1[k] != r2[k];
        let k = first_difference(r1, r2, k0);
        let x = r1[k];
        let y = r2[k];
        assert(listed(r2, x as int));
        assert(listed(r1, y as int));
        let p = choose|p: int| 0 <= p < r2.len() && r2[p] as int == x as int;
        let q = choose|q: int| 0 <= q < r1.len() && r1[q] as int == y as int;
        if p < k {
            assert(r1[p] == r2[p]);
            assert(r1[p] == r1[k]);
        }
        if q < k {
            assert(r1[q] == r2[q]);
            assert(r2[q] == r2[k]);
        }
        assert(p > k);
        assert(q > k);
        assert(ranks_before(ss, r2[k], r2[p]));
        assert(ranks_before(ss, r1[k], r1[q]));
        lemma_ranks_before_asym(ss, x, y);
    }
    assert(r1 =~= r2);
}

/// The first position, up to `k`, where two sequences differ.
proof fn first_difference(r1: Seq<usize>, r2: Seq<usize>, k: int) -> (f: int)
    requires
        0 <= k < r1.len(),
        r1.len() == r2.len(),
        r1[k] != r2[k],
    ensures
        0 <= f <= k,
        r1[f] != r2[f],
        forall|j: int| 0 <= j < f ==> r1[j] == r2[j],
    decreases k,
{
    if exists|j: int| 0 <= j < k && r1[j] != r2[j] {
        let j = choose|j: int| 0 <= j < k && r1[j] != r2[j];
        first_difference(r1, r2, j)
    } else {
        k
    }
}

/// The highest single score is determined: one name and one score meet
/// `is_last_highest`.
pub proof fn lemma_last_highest_is_unique(
    pairs: Seq<(Seq<char>, u32)>,
    n1: Seq<char>,
    s1: u32,
    n2: Seq<char>,
    s2: u32,
)
    requires
        is_last_highest(pairs, n1, s1),
        is_last_highest(pairs, n2, s2),
    ensures
        n1 == n2,
        s1 == s2,
{
    let q1 = choose|q: int|
        0 <= q < pairs.len() && pairs[q] == (n1, s1) && (forall|t: int|
            0 <= t < pairs.len() ==> (#[trigger] pairs[t]).1 <= s1) && (forall|t: int|
            q < t < pairs.len() ==> (#[trigger] pairs[t]).1 < s1);
    let q2 = choose|q: int|
        0 <= q < pairs.len() && pairs[q] == (n2, s2) && (forall|t: int|
            0 <= t < pairs.len() ==> (#[trigger] pairs[t]).1 <= s2) && (forall|t: int|
            q < t < pairs.len() ==> (#[trigger] pairs[t]).1 < s2);
    assert(pairs[q1].1 <= s2);
    assert(pairs[q2].1 <= s1);
    if q1 < q2 {
        assert(pairs[q2].1 < s1);
    } else if q2 < q1 {
        assert(pairs[q1].1 < s2);
    }
}

proof fn lemma_grade_count_remove(s: Seq<u32>, i: int, g: Grade)
    requires
        0 <= i < s.len(),
    ensures
        grade_count(s, g) == grade_count(s.remove(i), g) + if grade_of(s[i]) == g {
            1nat
        } else {
            0nat
        },
    decreases s.len(),
{
    if i == s.len() - 1 {
        assert(s.remove(i) =~= s.drop_last());
    } else {
        assert(s.remove(i).drop_last() =~= s.drop_last().remove(i));
        assert(s.remove(i).last() == s.last());
        lemma_grade_count_remove(s.drop_last(), i, g);
    }
}

/// The count of a grade depends only on which scores there are, not on
/// their order.
proof fn lemma_grade_count_multiset(s1: Seq<u32>, s2: Seq<u32>, g: Grade)
    requires
        s1.to_multiset() == s2.to_multiset(),
    ensures
        grade_count(s1, g) == grade_count(s2, g),
    decreases s1.len(),
{
    broadcast use vstd::seq_lib::group_to_multiset_ensures;

    if s1.len() == 0 {
        assert(s1.to_multiset().len() == 0);
        assert(s2.to_multiset().len() == s2.len());
        assert(s2.len() == 0);
    } else {
        let x = s1.last();
        let rest = s1.drop_last();
        assert(s1 =~= rest.push(x));
        assert(s2.to_multiset().count(x) > 0);
        assert(s2.contains(x));
        let i = choose|i: int| 0 <= i < s2.len() && s2[i] == x;
        assert(s2.remove(i).to_multiset() =~= rest.to_multiset());
        lemma_grade_count_multiset(rest, s2.remove(i), g);
        lemma_grade_count_remove(s2, i, g);
    }
}

/// The grade distribution does not depend on the order of the scores: two
/// score lists holding the same scores as often give the same distribution.
pub proof fn lemma_distribution_ignores_order(s1: Seq<u32>, s2: Seq<u32>)
    requires
        s1.to_multiset() == s2.to_multiset(),
    ensures
        distribution(s1) == distribution(s2),
{
    assert forall|k: int| 0 <= k < 5 implies #[trigger] distribution(s1)[k] == distribution(s2)[k] by {
        lemma_grade_count_multiset(s1, s2, grade_at(k));
    }
    assert(distribution(s1) =~= distribution(s2));
}

/// The scores of all students as a multiset: each student's scores, added up.
pub open spec fn scores_multiset(ss: Seq<Student>) -> vstd::multiset::Multiset<u32>
    decreases ss.len(),
{
    if ss.len() == 0 {
        vstd::multiset::Multiset::empty()
    } else {
        scores_multiset(ss.drop_last()).add(ss.last()@.scores.to_multiset())
    }
}

proof fn lemma_all_scores_multiset(ss: Seq<Student>)
    ensures
        all_scores(ss).to_multiset() == scores_multiset(ss),
    decreases ss.len(),
{
    broadcast use vstd::seq_lib::group_to_multiset_ensures;

    if ss.len() == 0 {
        assert(all_scores(ss).to_multiset() =~= vstd::multiset::Multiset::<u32>::empty());
    } else {
        lemma_all_scores_multiset(ss.drop_last());
        vstd::seq_lib::lemma_multiset_commutative(all_scores(ss.drop_last()), ss.last()@.scores);
    }
}

proof fn lemma_scores_multiset_remove(ss: Seq<Student>, i: int)
    requires
        0 <= i < ss.len(),
    ensures
        scores_multiset(ss) == scores_multiset(ss.remove(i)).add(ss[i]@.scores.to_multiset()),
    decreases ss.len(),
{
    if i == ss.len() - 1 {
        assert(ss.remove(i) =~= ss.drop_last());
    } else {
        assert(ss.remove(i).drop_last() =~= ss.drop_last().remove(i));
        assert(ss.remove(i).last() == ss.last());
        lemma_scores_multiset_remove(ss.drop_last(), i);
        let a = scores_multiset(ss.drop_last().remove(i));
        let b = ss[i]@.scores.to_multiset();
        let c = ss.last()@.scores.to_multiset();
        assert(a.add(b).add(c) =~= a.add(c).add(b));
    }
}

/// Each student's scores as a multiset, one per student.
pub open spec fn student_score_multisets(ss: Seq<Student>) -> vstd::multiset::Multiset<vstd::multiset::Multiset<u32>> {
    ss.map_values(|st: Student| st@.scores.to_multiset()).to_multiset()
}

proof fn lemma_scores_multiset_reorder(ss1: Seq<Student>, ss2: Seq<Student>)
    requires
        student_score_multisets(ss1) == student_score_multisets(ss2),
    ensures
        scores_multiset(ss1) == scores_multiset(ss2),
    decreases ss1.len(),
{
    broadcast use vstd::seq_lib::group_to_multiset_ensures;

    let f = |st: Student| st@.scores.to_multiset();
    let m1 = ss1.map_values(f);
    let m2 = ss2.map_values(f);
    if ss1.len() == 0 {
        assert(m1.to_multiset().len() == 0);
        assert(m2.to_multiset().len() == m2.len());
        assert(m2.len() == 0);
        assert(ss2.len() == 0);
        assert(scores_multiset(ss1) =~= scores_multiset(ss2));
    } else {
        let rest = ss1.drop_last();
        let x = f(ss1.last());
        assert(m1 =~= rest.map_values(f).push(x));
        assert(m2.to_multiset().count(x) > 0);
        assert(m2.contains(x));
        let i = choose|i: int| 0 <= i < m2.len() && m2[i] == x;
        assert(ss2.remove(i).map_values(f) =~= m2.remove(i));
        assert(m2.remove(i).to_multiset() =~= rest.map_values(f).to_multiset());
        lemma_scores_multiset_reorder(rest, ss2.remove(i));
        lemma_scores_multiset_remove(ss2, i);
    }
}

/// Reordering the students, or the scores of any student, leaves the grade
/// distribution unchanged: it depends only on each student's scores taken
/// without order.
pub proof fn lemma_distribution_ignores_student_order(ss1: Seq<Student>, ss2: Seq<Student>)
    requires
        student_score_multisets(ss1) == student_score_multisets(ss2),
    ensures
        distribution(all_scores(ss1)) == distribution(all_scores(ss2)),
{
    lemma_scores_multiset_reorder(ss1, ss2);
    lemma_all_scores_multiset(ss1);
    lemma_all_scores_multiset(ss2);
    lemma_distribution_ignores_order(all_scores(ss1), all_scores(ss2));
}

/// A student has scores and their average is at least the top average.
pub open spec fn averages_at_least_top(st: StudentView) -> bool {
    st.scores.len() > 0 && score_sum(st.scores) >= TOP_AVERAGE * st.scores.len()
}

/// The positions in `r` of the entries of `top_of(ss, r)`.
spec fn top_positions(ss: Seq<Student>, r: Seq<usize>) -> Seq<int>
    decreases r.len(),
{
    if r.len() == 0 {
        Seq::empty()
    } else {
        top_positions(ss, r.drop_last()) + if reaches_top_average(ss[r.last() as int]@) {
            seq![r.len() - 1]
        } else {
            Seq::empty()
        }
    }
}

proof fn lemma_top_positions(ss: Seq<Student>, r: Seq<usize>)
    ensures
        top_positions(ss, r).len() == top_of(ss, r).len(),
        forall|a: int|
            0 <= a < top_positions(ss, r).len() ==> 0 <= #[trigger] top_positions(ss, r)[a] < r.len()
                && top_of(ss, r)[a] == r[top_positions(ss, r)[a]],
        forall|a: int, b: int|
            0 <= a < b < top_positions(ss, r).len() ==> #[trigger] top_positions(ss, r)[a]
                < #[trigger] top_positions(ss, r)[b],
        forall|t: int|
            0 <= t < r.len() && reaches_top_average(ss[r[t] as int]@) ==> exists|a: int|
                0 <= a < top_positions(ss, r).len() && #[trigger] top_positions(ss, r)[a] == t,
    decreases r.len(),
{
    if r.len() > 0 {
        let front = r.drop_last();
        lemma_top_positions(ss, front);
        let pf = top_positions(ss, front);
        let tf = top_of(ss, front);
        let p = top_positions(ss, r);
        let t = top_of(ss, r);
        assert forall|a: int| 0 <= a < p.len() implies 0 <= #[trigger] p[a] < r.len() && t[a] == r[p[a]] by {
            if a < pf.len() {
                assert(p[a] == pf[a]);
                assert(t[a] == tf[a]);
            } else {
                assert(p[a] == r.len() - 1);
                assert(t[a] == r.last());
            }
        }
        assert forall|a: int, b: int| 0 <= a < b < p.len() implies #[trigger] p[a] < #[trigger] p[b] by {
            if b < pf.len() {
                assert(p[a] == pf[a] && p[b] == pf[b]);
            } else {
                assert(p[a] == pf[a]);
            }
        }
        assert forall|u: int| 0 <= u < r.len() && reaches_top_average(ss[r[u] as int]@) implies exists|a: int|
            0 <= a < p.len() && #[trigger] p[a] == u by {
            if u < front.len() {
                assert(front[u] == r[u]);
                let a = choose|a: int| 0 <= a < pf.len() && #[trigger] pf[a] == u;
                assert(p[a] == pf[a]);
            } else {
                assert(p[pf.len() as int] == u);
            }
        }
    }
}

proof fn lemma_reaches_top_elementary(st: StudentView)
    ensures
        reaches_top_average(st) == averages_at_least_top(st),
{
    lemma_avg_parts(st);
}

/// The top students are exactly the students whose average reaches the top
/// average: each listed student reaches it, every student who reaches it is
/// listed, once, and they come in ranking order (higher average first,
/// equal averages in the order the students are given).
pub proof fn lemma_top_students_are_ranking_filtered(ss: Seq<Student>, all: Seq<usize>)
    requires
        is_ranking(ss, all),
    ensures
        forall|t: int|
            0 <= t < top_of(ss, all).len() ==> #[trigger] top_of(ss, all)[t] < ss.len() && averages_at_least_top(
                ss[top_of(ss, all)[t] as int]@,
            ),
        forall|i: int|
            0 <= i < ss.len() && averages_at_least_top(#[trigger] ss[i]@) ==> top_of(ss, all).contains(i as usize),
        forall|a: int, b: int|
            0 <= a < b < top_of(ss, all).len() ==> ranks_before(ss, #[trigger] top_of(ss, all)[a], #[trigger] top_of(ss, all)[b]),
        top_of(ss, all).no_duplicates(),
{
    let top = top_of(ss, all);
    let pos = top_positions(ss, all);
    lemma_top_positions(ss, all);
    lemma_top_of_members(ss, all);
    lemma_ranking_covers(ss, all);
    assert forall|t: int| 0 <= t < top.len() implies #[trigger] top[t] < ss.len() && averages_at_least_top(ss[top[t] as int]@) by {
        assert(top[t] == all[pos[t]]);
        lemma_reaches_top_elementary(ss[top[t] as int]@);
    }
    assert forall|i: int| 0 <= i < ss.len() && averages_at_least_top(#[trigger] ss[i]@) implies top.contains(i as usize) by {
        lemma_reaches_top_elementary(ss[i]@);
        assert(listed(all, i));
        let u = choose|u: int| 0 <= u < all.len() && all[u] as int == i;
        assert(reaches_top_average(ss[all[u] as int]@));
        let a = choose|a: int| 0 <= a < pos.len() && #[trigger] pos[a] == u;
        assert(top[a] == all[u]);
    }
    assert forall|a: int, b: int| 0 <= a < b < top.len() implies ranks_before(ss, #[trigger] top[a], #[trigger] top[b]) by {
        assert(pos[a] < pos[b]);
        assert(top[a] == all[pos[a]] && top[b] == all[pos[b]]);
    }
    assert forall|a: int, b: int| 0 <= a < top.len() && 0 <= b < top.len() && a != b implies top[a] != top[b] by {
        let (x, y) = if a < b { (a, b) } else { (b, a) };
        assert(pos[x] < pos[y]);
        assert(all[pos[x]] != all[pos[y]]);
        assert(top[x] == all[pos[x]] && top[y] == all[pos[y]]);
    }
}

} // verus!
