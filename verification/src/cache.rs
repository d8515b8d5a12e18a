//! Insertion cache: memoizes the best marginal insertion value for a
//! `(table-day state, person)` pair within one solver run.
//!
//! A table-day state is canonicalized before lookup: the occupant sequence is
//! rotated to start at its smallest occupant id, so two states that are
//! cyclic rotations of one another share one cache key. The cache stores the
//! canonical sequence itself (not a hash of it), so a hit can never confuse
//! two distinct states. Entries are pure facts about the problem, so the
//! cache is never invalidated; it only grows for the lifetime of a run.

use vstd::prelude::*;

use crate::insertion::{
    best_idx_upto, best_val_upto, insert_into_best_table_position, insertion_cand,
    insertion_value_spec, lemma_best_props,
};
use crate::objective::{
    is_rotation_of, lemma_mod_in_range, lemma_table_value_rotation, rotate,
    ObjectiveValueCalculator,
};
use crate::problem::{has_person, has_table, ProblemDescription, MAX_PEOPLE_FOR_TABLE};

verus! {

/// Earliest index of the smallest value among `s[0..n]` (`n >= 1`).
pub open spec fn min_index_upto(s: Seq<usize>, n: int) -> int
    decreases n,
{
    if n <= 1 {
        0
    } else {
        let prev = min_index_upto(s, n - 1);
        if s[n - 1] < s[prev] {
            n - 1
        } else {
            prev
        }
    }
}

/// Earliest index of the smallest value of a non-empty sequence.
pub open spec fn min_index(s: Seq<usize>) -> int {
    min_index_upto(s, s.len() as int)
}

/// The rotation-canonical form of an occupant sequence: rotated to start at
/// its smallest occupant id.
pub open spec fn canonical_form(s: Seq<usize>) -> Seq<usize> {
    if s.len() == 0 {
        s
    } else {
        rotate(s, min_index(s))
    }
}

pub proof fn lemma_min_index_props(s: Seq<usize>, n: int)
    requires
        1 <= n <= s.len(),
    ensures
        0 <= min_index_upto(s, n) < n,
        forall|i: int| 0 <= i < n ==> s[min_index_upto(s, n)] <= #[trigger] s[i],
    decreases n,
{
    if n > 1 {
        lemma_min_index_props(s, n - 1);
    }
}

/// The canonical form of a non-empty sequence is one of its rotations.
pub proof fn lemma_canon_is_rotation(s: Seq<usize>)
    requires
        s.len() > 0,
    ensures
        is_rotation_of(s, canonical_form(s)),
{
    lemma_min_index_props(s, s.len() as int);
    let k = min_index(s);
    assert(0 <= k < s.len() && canonical_form(s) == rotate(s, k));
}

/// Composing two rotations rotates by the sum (mod the length).
pub proof fn lemma_rotate_compose(s: Seq<usize>, k1: int, k2: int)
    requires
        0 <= k1 < s.len(),
        0 <= k2 < s.len(),
    ensures
        rotate(rotate(s, k1), k2) == rotate(s, (k1 + k2) % (s.len() as int)),
{
    let n = s.len() as int;
    vstd::arithmetic::div_mod::lemma_mod_division_less_than_divisor(k1 + k2, n);
    assert forall|x: int| 0 <= x < n implies rotate(rotate(s, k1), k2)[x] == rotate(
        s,
        (k1 + k2) % n,
    )[x] by {
        vstd::arithmetic::div_mod::lemma_mod_division_less_than_divisor(x + k2, n);
        assert(rotate(rotate(s, k1), k2)[x] == rotate(s, k1)[(x + k2) % n]);
        assert(rotate(s, k1)[(x + k2) % n] == s[((x + k2) % n + k1) % n]);
        vstd::arithmetic::div_mod::lemma_add_mod_noop_right(k1, x + k2, n);
        assert(((x + k2) % n + k1) % n == (x + k2 + k1) % n);
        vstd::arithmetic::div_mod::lemma_add_mod_noop_right(x, k1 + k2, n);
        assert((x + (k1 + k2) % n) % n == (x + k1 + k2) % n);
        assert(rotate(s, (k1 + k2) % n)[x] == s[(x + (k1 + k2) % n) % n]);
    }
    assert(rotate(rotate(s, k1), k2) =~= rotate(s, (k1 + k2) % n));
}

/// For duplicate-free sequences, canonicalization picks the same
/// representative from every rotation: rotations share one cache key.
pub proof fn lemma_canonical_rotation_invariant(a: Seq<usize>, b: Seq<usize>)
    requires
        a.no_duplicates(),
        is_rotation_of(a, b),
    ensures
        canonical_form(a) == canonical_form(b),
{
    if a.len() > 0 {
        let n = a.len() as int;
        let k = choose|k: int| 0 <= k < n && b == rotate(a, k);
        lemma_min_index_props(a, n);
        let ma = min_index(a);
        let mb = (ma - k + n) % n;
        vstd::arithmetic::div_mod::lemma_mod_division_less_than_divisor(ma - k + n, n);
        vstd::arithmetic::div_mod::lemma_small_mod(ma as nat, n as nat);
        vstd::arithmetic::div_mod::lemma_mod_add_multiples_vanish(ma, n);
        vstd::arithmetic::div_mod::lemma_add_mod_noop_right(k, ma - k + n, n);
        assert((mb + k) % n == (k + (ma - k + n)) % n);
        assert((mb + k) % n == ma);
        assert(b[mb] == a[(mb + k) % n]);
        assert(b[mb] == a[ma]);
        assert forall|j: int| 0 <= j < n implies b[mb] <= b[j] by {
            vstd::arithmetic::div_mod::lemma_mod_division_less_than_divisor(j + k, n);
            assert(b[j] == a[(j + k) % n]);
        }
        assert(b.len() == n);
        lemma_min_index_props(b, n);
        let m2 = min_index(b);
        assert(b[m2] <= b[mb]);
        assert(b[mb] <= b[m2]);
        vstd::arithmetic::div_mod::lemma_mod_division_less_than_divisor(m2 + k, n);
        assert(b[m2] == a[(m2 + k) % n]);
        assert(a[(m2 + k) % n] == a[ma]);
        if (m2 + k) % n != ma {
            assert(a[(m2 + k) % n] != a[ma]);
        }
        assert((m2 + k) % n == ma);
        lemma_mod_in_range(m2 + k, n);
        lemma_mod_in_range(mb + k, n);
        assert(m2 == mb);
        lemma_rotate_compose(a, k, mb);
        assert(canonical_form(b) == rotate(a, (k + mb) % n));
        assert((k + mb) % n == ma);
        assert(canonical_form(b) == canonical_form(a));
    } else {
        assert(b.len() == 0);
    }
}

/// Splicing the new person into the same cyclic gap: inserting into a
/// rotated group gives a rotation of inserting into the original group.
pub proof fn lemma_insert_rotate(g: Seq<usize>, k: int, i: int, pid: usize)
    requires
        g.len() >= 1,
        0 <= k < g.len(),
        0 <= i < g.len(),
    ensures
        ({
            let n = g.len() as int;
            let j = if i + k < n {
                i + k
            } else {
                i + k - n
            };
            let m = if i + k < n {
                k
            } else {
                k + 1
            };
            rotate(g, k).insert(i, pid) == rotate(g.insert(j, pid), m)
        }),
{
    let n = g.len() as int;
    let j = if i + k < n {
        i + k
    } else {
        i + k - n
    };
    let m = if i + k < n {
        k
    } else {
        k + 1
    };
    let h = g.insert(j, pid);
    let lhs = rotate(g, k).insert(i, pid);
    let rhs = rotate(h, m);
    g.insert_ensures(j, pid);
    rotate(g, k).insert_ensures(i, pid);
    assert(h.len() == n + 1);
    assert(lhs.len() == n + 1);
    assert(rhs.len() == n + 1);
    assert forall|x: int| 0 <= x < n + 1 implies lhs[x] == rhs[x] by {
        lemma_mod_in_range(x + m, n + 1);
        assert(rhs[x] == h[(x + m) % (n + 1)]);
        if x < i {
            lemma_mod_in_range(x + k, n);
            assert(lhs[x] == rotate(g, k)[x]);
            assert(rotate(g, k)[x] == g[(x + k) % n]);
        } else if x == i {
            assert(lhs[x] == pid);
        } else {
            lemma_mod_in_range(x - 1 + k, n);
            assert(lhs[x] == rotate(g, k)[x - 1]);
            assert(rotate(g, k)[x - 1] == g[(x - 1 + k) % n]);
        }
    }
    assert(lhs =~= rhs);
}

/// Rotation invariance of the best insertion value: the set of cyclic gaps
/// that an insertion can fill does not depend on where the cycle starts.
pub proof fn lemma_insertion_value_rotation(
    p: ProblemDescription,
    table_day_id: usize,
    g: Seq<usize>,
    k: int,
    pid: usize,
)
    requires
        0 <= k < g.len(),
    ensures
        insertion_value_spec(p, table_day_id, rotate(g, k), pid) == insertion_value_spec(
            p,
            table_day_id,
            g,
            pid,
        ),
{
    let n = g.len() as int;
    let h = rotate(g, k);
    assert(h.len() == n);
    if n < MAX_PEOPLE_FOR_TABLE {
        lemma_table_value_rotation(p, table_day_id, g, k);
        assert forall|i: int| 0 <= i < n implies insertion_cand(p, table_day_id, h, pid, i)
            == insertion_cand(
            p,
            table_day_id,
            g,
            pid,
            if i + k < n {
                i + k
            } else {
                i + k - n
            },
        ) by {
            let j = if i + k < n {
                i + k
            } else {
                i + k - n
            };
            let m = if i + k < n {
                k
            } else {
                k + 1
            };
            lemma_insert_rotate(g, k, i, pid);
            g.insert_ensures(j, pid);
            lemma_table_value_rotation(p, table_day_id, g.insert(j, pid), m);
        }
        lemma_best_props(p, table_day_id, g, pid, n);
        lemma_best_props(p, table_day_id, h, pid, n);
        let bh = best_idx_upto(p, table_day_id, h, pid, n);
        let jh = if bh + k < n {
            bh + k
        } else {
            bh + k - n
        };
        assert(best_val_upto(p, table_day_id, h, pid, n) == insertion_cand(
            p,
            table_day_id,
            g,
            pid,
            jh,
        ));
        assert(best_val_upto(p, table_day_id, h, pid, n) <= best_val_upto(
            p,
            table_day_id,
            g,
            pid,
            n,
        ));
        let bg = best_idx_upto(p, table_day_id, g, pid, n);
        let ih = if bg - k >= 0 {
            bg - k
        } else {
            bg - k + n
        };
        assert(0 <= ih < n);
        assert(insertion_cand(p, table_day_id, h, pid, ih) == insertion_cand(
            p,
            table_day_id,
            g,
            pid,
            bg,
        ));
        assert(best_val_upto(p, table_day_id, g, pid, n) <= best_val_upto(
            p,
            table_day_id,
            h,
            pid,
            n,
        ));
    }
}

/// One memoized fact: the best marginal value (or infeasibility) of
/// inserting `person_id` into the canonical state `canon_people` of slot
/// `table_day_id`.
pub struct CacheEntry {
    pub table_day_id: usize,
    pub canon_people: Vec<usize>,
    pub person_id: usize,
    pub value: Option<i64>,
}

/// A cache entry records exactly what the evaluator would compute.
pub open spec fn entry_wf(e: CacheEntry, p: ProblemDescription) -> bool {
    match e.value {
        Option::Some(v) => insertion_value_spec(p, e.table_day_id, e.canon_people@, e.person_id)
            == Option::Some(v as int),
        Option::None => insertion_value_spec(
            p,
            e.table_day_id,
            e.canon_people@,
            e.person_id,
        ) is None,
    }
}

/// The memoization cache of one solver run.
pub struct InsertionCache {
    pub problem: Ghost<ProblemDescription>,
    pub entries: Vec<CacheEntry>,
}

/// Whether the values of `a` and `b` are equal pointwise.
fn vec_eq_usize(a: &Vec<usize>, b: &Vec<usize>) -> (r: bool)
    ensures
        r == (a@ == b@),
{
    if a.len() != b.len() {
        proof {
            assert(a@.len() != b@.len());
        }
        return false;
    }
    let mut k: usize = 0;
    while k < a.len()
        invariant
            0 <= k <= a@.len(),
            a@.len() == b@.len(),
            forall|i: int| 0 <= i < k ==> a@[i] == b@[i],
        decreases a@.len() - k,
    {
        if a[k] != b[k] {
            return false;
        }
        k = k + 1;
    }
    proof {
        assert(a@ =~= b@);
    }
    true
}

/// Rotates `people` to its canonical form, starting at the smallest id.
pub fn canonical_rotation(people: &Vec<usize>) -> (r: Vec<usize>)
    requires
        people@.len() <= MAX_PEOPLE_FOR_TABLE,
    ensures
        r@ == canonical_form(people@),
{
    let n = people.len();
    if n == 0 {
        let r: Vec<usize> = Vec::new();
        proof {
            assert(r@ =~= people@);
        }
        return r;
    }
    let mut m: usize = 0;
    let mut k: usize = 1;
    while k < n
        invariant
            n == people@.len(),
            1 <= k <= n,
            m as int == min_index_upto(people@, k as int),
            0 <= m < k,
        decreases n - k,
    {
        proof {
            lemma_min_index_props(people@, k as int);
        }
        if people[k] < people[m] {
            m = k;
        }
        k = k + 1;
    }
    let mut r: Vec<usize> = Vec::new();
    let mut i: usize = 0;
    while i < n
        invariant
            n == people@.len() <= MAX_PEOPLE_FOR_TABLE,
            0 <= m < n,
            m as int == min_index(people@),
            0 <= i <= n,
            r@.len() == i,
            forall|j: int| 0 <= j < i ==> r@[j] == people@[(j + m as int) % (n as int)],
        decreases n - i,
    {
        let idx = (i + m) % n;
        proof {
            lemma_mod_in_range(i + m, n as int);
        }
        r.push(people[idx]);
        i = i + 1;
    }
    proof {
        assert(r@ =~= rotate(people@, m as int));
    }
    r
}

impl InsertionCache {
    /// Every entry is a true fact about the problem.
    pub open spec fn wf(&self) -> bool {
        forall|e: int| 0 <= e < self.entries@.len() ==> entry_wf(#[trigger] self.entries@[e], self.problem@)
    }

    /// An empty cache for one problem instance.
    pub fn new(calc: &ObjectiveValueCalculator) -> (r: InsertionCache)
        ensures
            r.wf(),
            r.problem@ == calc.problem@,
    {
        InsertionCache { problem: Ghost(calc.problem@), entries: Vec::new() }
    }

    /// The best marginal value of inserting `person_id` into the state
    /// `people` of slot `table_day_id` (`None` when the slot is at
    /// capacity): memoized by canonical state, computed on a miss. The
    /// result always equals what direct evaluation would give.
    pub fn get_or_compute(
        &mut self,
        calc: &ObjectiveValueCalculator,
        table_day_id: usize,
        people: &Vec<usize>,
        person_id: usize,
    ) -> (r: Option<i64>)
        requires
            calc.wf(),
            old(self).wf(),
            old(self).problem@ == calc.problem@,
            has_table(calc.problem@.tables@, table_day_id),
            forall|i: int|
                0 <= i < people@.len() ==> has_person(calc.problem@.people@, #[trigger] people@[i]),
            has_person(calc.problem@.people@, person_id),
            people@.len() <= MAX_PEOPLE_FOR_TABLE,
        ensures
            final(self).wf(),
            final(self).problem@ == old(self).problem@,
            match r {
                Option::Some(v) => insertion_value_spec(
                    calc.problem@,
                    table_day_id,
                    people@,
                    person_id,
                ) == Option::Some(v as int),
                Option::None => insertion_value_spec(
                    calc.problem@,
                    table_day_id,
                    people@,
                    person_id,
                ) is None,
            },
    {
        let ghost problem = calc.problem@;
        let canon = canonical_rotation(people);
        proof {
            if people@.len() > 0 {
                lemma_min_index_props(people@, people@.len() as int);
                lemma_insertion_value_rotation(
                    problem,
                    table_day_id,
                    people@,
                    min_index(people@),
                    person_id,
                );
            }
            assert(insertion_value_spec(problem, table_day_id, canon@, person_id)
                == insertion_value_spec(problem, table_day_id, people@, person_id));
        }
        let mut e: usize = 0;
        while e < self.entries.len()
            invariant
                self.wf(),
                self.problem@ == problem,
                problem == calc.problem@,
                0 <= e <= self.entries@.len(),
                insertion_value_spec(problem, table_day_id, canon@, person_id)
                    == insertion_value_spec(problem, table_day_id, people@, person_id),
            decreases self.entries@.len() - e,
        {
            let entry = &self.entries[e];
            if entry.table_day_id == table_day_id && entry.person_id == person_id && vec_eq_usize(
                &entry.canon_people,
                &canon,
            ) {
                proof {
                    assert(entry_wf(self.entries@[e as int], problem));
                    assert(self.entries@[e as int].canon_people@ == canon@);
                }
                return entry.value;
            }
            e = e + 1;
        }
        proof {
            assert forall|i: int| 0 <= i < canon@.len() implies has_person(
                problem.people@,
                #[trigger] canon@[i],
            ) by {
                if people@.len() > 0 {
                    let n = people@.len() as int;
                    vstd::arithmetic::div_mod::lemma_mod_division_less_than_divisor(
                        i + min_index(people@),
                        n,
                    );
                    assert(canon@[i] == people@[(i + min_index(people@)) % n]);
                }
            }
        }
        let value: Option<i64> = match insert_into_best_table_position(
            calc,
            table_day_id,
            &canon,
            person_id,
        ) {
            Option::Some((_, v)) => Option::Some(v),
            Option::None => Option::None,
        };
        let entry = CacheEntry {
            table_day_id,
            canon_people: canon,
            person_id,
            value,
        };
        proof {
            assert(entry_wf(entry, problem));
        }
        self.entries.push(entry);
        value
    }
}

} // verus!
