//! Unique names for the values and blocks of a unit in emitted text.
//!
//! A requested name is escaped, then extended with the smallest number
//! from its counter on that makes it unique. An unnamed value gets the
//! smallest unused number from the temporary counter on.

use crate::assembly::reader::digits_value;
use crate::assembly::{escape_name, escaped};
use crate::konst::{decimal, digit_char, push_decimal};
use vstd::prelude::*;
use vstd::set_lib::lemma_len_subset;

verus! {

/// The `i`th candidate for a requested name: the name itself, then the name
/// followed by `1`, `2`, and so on.
pub open spec fn candidate(base: Seq<char>, i: nat) -> Seq<char> {
    if i == 0 {
        base
    } else {
        base + decimal(i)
    }
}

/// The counter most recently recorded for `base`, or zero.
pub open spec fn counter_of(s: Seq<(String, usize)>, base: Seq<char>) -> nat
    decreases s.len(),
{
    if s.len() == 0 {
        0
    } else if s.last().0@ == base {
        s.last().1 as nat
    } else {
        counter_of(s.drop_last(), base)
    }
}

/// The view of an optional string.
pub open spec fn str_opt_view(o: Option<&str>) -> Option<Seq<char>> {
    match o {
        Some(s) => Some(s@),
        None => None,
    }
}

/// `new` is the table `old` after handing out `r` for the requested name
/// `name`: for a requested name, the first candidate of its escaped form
/// from its counter on that was not handed out yet; otherwise the first
/// number from the temporary counter on that was not handed out yet. The
/// counter used moves past `r`; the other counters stay.
pub open spec fn uniquified(old: NameTable, new: NameTable, name: Option<Seq<char>>, r: Seq<char>) -> bool {
    &&& !old.spec_names().contains(r)
    &&& new.spec_names() == old.spec_names().push(r)
    &&& match name {
        Some(n) => {
            let base = escaped(n);
            let j = new.spec_counter(base) - 1;
            &&& old.spec_counter(base) <= j
            &&& r == candidate(base, j as nat)
            &&& forall|i: nat| old.spec_counter(base) <= i < j ==> old.spec_names().contains(#[trigger] candidate(base, i))
            &&& forall|b: Seq<char>| b != base ==> #[trigger] new.spec_counter(b) == old.spec_counter(b)
            &&& new.spec_tmp() == old.spec_tmp()
        },
        None => {
            let t = new.spec_tmp() - 1;
            &&& old.spec_tmp() <= t
            &&& r == decimal(t as nat)
            &&& forall|i: nat| old.spec_tmp() <= i < t ==> old.spec_names().contains(#[trigger] decimal(i))
            &&& forall|b: Seq<char>| #[trigger] new.spec_counter(b) == old.spec_counter(b)
        },
    }
}

/// The names handed out so far, and the counters that the next names start
/// from.
pub struct NameTable {
    names: Vec<String>,
    indices: Vec<(String, usize)>,
    tmp_index: usize,
}

/// A digit denotes its value.
proof fn lemma_digit_value(d: nat)
    requires
        d < 10,
    ensures
        (digit_char(d) as u32) - 48 == d,
{
}

/// The digits of a decimal number denote that number.
pub proof fn lemma_decimal_value(n: nat)
    ensures
        digits_value(decimal(n)) == n,
    decreases n,
{
    let s = decimal(n);
    if n < 10 {
        lemma_digit_value(n);
        assert(s.drop_last() =~= Seq::<char>::empty());
        assert(s.last() == digit_char(n));
        assert(digits_value(s) == digits_value(s.drop_last()) * 10 + ((s.last() as u32) - 48) as nat);
    } else {
        lemma_decimal_value(n / 10);
        lemma_digit_value(n % 10);
        assert(s.drop_last() =~= decimal(n / 10));
        assert(s.last() == digit_char(n % 10));
        assert(digits_value(s) == digits_value(s.drop_last()) * 10 + ((s.last() as u32) - 48) as nat);
        assert((n / 10) * 10 + n % 10 == n) by (nonlinear_arith);
    }
}

/// A decimal number has at least one digit.
proof fn lemma_decimal_nonempty(n: nat)
    ensures
        decimal(n).len() >= 1,
    decreases n,
{
    if n >= 10 {
        lemma_decimal_nonempty(n / 10);
    }
}

/// Different candidates for one name are different names.
pub proof fn lemma_candidates_distinct(base: Seq<char>, i: nat, j: nat)
    requires
        i != j,
    ensures
        candidate(base, i) != candidate(base, j),
{
    if i > 0 && j > 0 {
        if candidate(base, i) == candidate(base, j) {
            let n = base.len() as int;
            assert(candidate(base, i).subrange(n, candidate(base, i).len() as int) =~= decimal(i));
            assert(candidate(base, j).subrange(n, candidate(base, j).len() as int) =~= decimal(j));
            lemma_decimal_value(i);
            lemma_decimal_value(j);
        }
    } else if i == 0 {
        lemma_decimal_nonempty(j);
    } else {
        lemma_decimal_nonempty(i);
    }
}

/// Different numbers have different decimal texts.
pub proof fn lemma_decimal_distinct(i: nat, j: nat)
    requires
        i != j,
    ensures
        decimal(i) != decimal(j),
{
    lemma_decimal_value(i);
    lemma_decimal_value(j);
}

/// A name present before a push is present after it.
proof fn lemma_push_keeps(names: Seq<Seq<char>>, r: Seq<char>, x: Seq<char>)
    requires
        names.contains(x),
    ensures
        names.push(r).contains(x),
{
    let j = choose|j: int| 0 <= j < names.len() && names[j] == x;
    assert(names.push(r)[j] == x);
}

/// A list of distinct names that all occur in `names` is no longer than it.
proof fn lemma_pigeonhole(seen: Seq<Seq<char>>, names: Seq<Seq<char>>)
    requires
        seen.no_duplicates(),
        forall|k: int| 0 <= k < seen.len() ==> names.contains(#[trigger] seen[k]),
    ensures
        seen.len() <= names.len(),
{
    broadcast use vstd::seq_lib::seq_to_set_is_finite;

    seen.unique_seq_to_set();
    names.lemma_cardinality_of_set();
    assert(seen.to_set().subset_of(names.to_set())) by {
        assert forall|x: Seq<char>| seen.to_set().contains(x) implies names.to_set().contains(x) by {
            let k = choose|k: int| 0 <= k < seen.len() && seen[k] == x;
            assert(names.contains(seen[k]));
        }
    }
    lemma_len_subset(seen.to_set(), names.to_set());
}

impl NameTable {
    /// The names handed out so far, in order.
    pub closed spec fn spec_names(&self) -> Seq<Seq<char>> {
        self.names@.map_values(|s: String| s@)
    }

    /// The counter that the candidates for an (escaped) requested name
    /// start from.
    pub closed spec fn spec_counter(&self, base: Seq<char>) -> nat {
        counter_of(self.indices@, base)
    }

    /// The counter that temporary names start from.
    pub closed spec fn spec_tmp(&self) -> nat {
        self.tmp_index as nat
    }

    /// No name was handed out twice, and every candidate below a counter
    /// was handed out.
    pub closed spec fn wf(&self) -> bool {
        &&& self.spec_names().no_duplicates()
        &&& forall|b: Seq<char>, i: nat| i < self.spec_counter(b) ==> self.spec_names().contains(
            #[trigger] candidate(b, i),
        )
        &&& forall|i: nat| i < self.spec_tmp() ==> self.spec_names().contains(#[trigger] decimal(i))
    }

    /// No counter is past the number of names handed out.
    pub proof fn lemma_counters_bounded(&self, b: Seq<char>)
        requires
            self.wf(),
        ensures
            self.spec_counter(b) <= self.spec_names().len(),
            self.spec_tmp() <= self.spec_names().len(),
    {
        let names = self.spec_names();
        let seen = Seq::new(self.spec_counter(b), |i: int| candidate(b, i as nat));
        assert forall|x: int, y: int| 0 <= x < y < seen.len() implies seen[x] != seen[y] by {
            lemma_candidates_distinct(b, x as nat, y as nat);
        }
        assert forall|k: int| 0 <= k < seen.len() implies names.contains(#[trigger] seen[k]) by {
            assert(names.contains(candidate(b, k as nat)));
        }
        lemma_pigeonhole(seen, names);
        let tmps = Seq::new(self.spec_tmp(), |i: int| decimal(i as nat));
        assert forall|x: int, y: int| 0 <= x < y < tmps.len() implies tmps[x] != tmps[y] by {
            lemma_decimal_distinct(x as nat, y as nat);
        }
        assert forall|k: int| 0 <= k < tmps.len() implies names.contains(#[trigger] tmps[k]) by {
            assert(names.contains(decimal(k as nat)));
        }
        lemma_pigeonhole(tmps, names);
    }

    /// An empty table.
    pub fn new() -> (t: NameTable)
        ensures
            t.wf(),
            t.spec_names() == Seq::<Seq<char>>::empty(),
            forall|b: Seq<char>| #[trigger] t.spec_counter(b) == 0,
            t.spec_tmp() == 0,
    {
        let t = NameTable { names: Vec::new(), indices: Vec::new(), tmp_index: 0 };
        proof {
            assert(t.spec_names() =~= Seq::<Seq<char>>::empty());
        }
        t
    }

    /// Whether the name was handed out.
    fn contains(&self, name: &String) -> (b: bool)
        ensures
            b == self.spec_names().contains(name@),
    {
        let mut k: usize = 0;
        while k < self.names.len()
            invariant
                k <= self.names@.len(),
                forall|j: int| 0 <= j < k ==> self.names@[j]@ != name@,
            decreases self.names@.len() - k,
        {
            if self.names[k] == *name {
                proof {
                    assert(self.spec_names()[k as int] == name@);
                }
                return true;
            }
            k = k + 1;
        }
        proof {
            if self.spec_names().contains(name@) {
                let j = choose|j: int| 0 <= j < self.spec_names().len() && self.spec_names()[j] == name@;
                assert(self.names@[j]@ == name@);
            }
        }
        false
    }

    /// The counter recorded for a requested name.
    fn counter(&self, base: &String) -> (n: usize)
        ensures
            n == self.spec_counter(base@),
    {
        let mut k = self.indices.len();
        proof {
            assert(self.indices@.subrange(0, k as int) == self.indices@);
        }
        while k > 0
            invariant
                k <= self.indices@.len(),
                counter_of(self.indices@, base@) == counter_of(self.indices@.subrange(0, k as int), base@),
            decreases k,
        {
            proof {
                assert(self.indices@.subrange(0, k as int).drop_last() == self.indices@.subrange(0, k - 1));
                assert(self.indices@.subrange(0, k as int).last() == self.indices@[k - 1]);
            }
            if self.indices[k - 1].0 == *base {
                return self.indices[k - 1].1;
            }
            k = k - 1;
        }
        0
    }

    /// Hand out a unique name: for a requested name, the first candidate of
    /// its escaped form from its counter on that was not handed out yet;
    /// otherwise the first number from the temporary counter on that was
    /// not handed out yet as a name. The counter moves past the candidate.
    pub fn uniquify_name(&mut self, name: Option<&str>) -> (r: String)
        requires
            old(self).wf(),
            2 * old(self).spec_names().len() + 1 <= usize::MAX,
        ensures
            final(self).wf(),
            uniquified(*old(self), *final(self), str_opt_view(name), r@),
    {
        let ghost names0 = self.spec_names();
        proof {
            match name {
                Some(n) => self.lemma_counters_bounded(escaped(n@)),
                None => self.lemma_counters_bounded(Seq::empty()),
            }
        }
        match name {
            Some(requested) => {
                let base = escape_name(requested);
                let i0 = self.counter(&base);
                let mut i = i0;
                let ghost mut seen: Seq<Seq<char>> = Seq::empty();
                let mut c = String::new();
                loop
                    invariant
                        self.spec_names() == names0,
                        base@ == escaped(requested@),
                        i0 + names0.len() + 1 <= usize::MAX,
                        i0 <= i,
                        seen.len() == i - i0,
                        seen.no_duplicates(),
                        forall|k: int| 0 <= k < seen.len() ==> #[trigger] seen[k] == candidate(base@, (i0 + k) as nat),
                        forall|k: int| 0 <= k < seen.len() ==> names0.contains(#[trigger] seen[k]),
                        forall|j: nat| i0 <= j < i ==> names0.contains(#[trigger] candidate(base@, j)),
                    ensures
                        i0 <= i,
                        i + 1 <= usize::MAX,
                        c@ == candidate(base@, i as nat),
                        !names0.contains(c@),
                        forall|j: nat| i0 <= j < i ==> names0.contains(#[trigger] candidate(base@, j)),
                    decreases names0.len() + i0 + 1 - i,
                {
                    proof {
                        lemma_pigeonhole(seen, names0);
                    }
                    let mut cand = base.clone();
                    if i > 0 {
                        push_decimal(&mut cand, i as u128);
                    }
                    assert(cand@ == candidate(base@, i as nat));
                    if !self.contains(&cand) {
                        c = cand;
                        break;
                    }
                    proof {
                        let ghost c_seq = cand@;
                        assert forall|k: int| 0 <= k < seen.len() implies seen[k] != c_seq by {
                            lemma_candidates_distinct(base@, (i0 + k) as nat, i as nat);
                        }
                        let s2 = seen.push(c_seq);
                        assert forall|a: int, b: int| 0 <= a < b < s2.len() implies s2[a] != s2[b] by {
                            if b == s2.len() - 1 {
                                assert(s2[a] == seen[a]);
                            } else {
                                assert(seen[a] != seen[b]);
                            }
                        }
                        seen = s2;
                    }
                    i = i + 1;
                }
                let r = c.clone();
                self.names.push(c);
                self.indices.push((base, i + 1));
                proof {
                    assert(self.spec_names() =~= names0.push(r@));
                    assert(self.indices@.drop_last() == old(self).indices@);
                    assert forall|b: Seq<char>| b != escaped(requested@) implies #[trigger] self.spec_counter(b) == old(
                        self,
                    ).spec_counter(b) by {
                        assert(self.indices@.last().0@ == escaped(requested@));
                    }
                    assert(self.spec_counter(base@) == i + 1) by {
                        assert(self.indices@.last().0@ == base@);
                    }
                    assert forall|b: Seq<char>, k: nat| k < self.spec_counter(b) implies self.spec_names().contains(
                        #[trigger] candidate(b, k),
                    ) by {
                        if b == base@ {
                            if k < i {
                                assert(names0.contains(candidate(b, k)));
                                lemma_push_keeps(names0, r@, candidate(b, k));
                            } else {
                                assert(self.spec_names().last() == candidate(b, k));
                            }
                        } else {
                            assert(old(self).spec_counter(b) == self.spec_counter(b));
                            assert(names0.contains(candidate(b, k)));
                            lemma_push_keeps(names0, r@, candidate(b, k));
                        }
                    }
                    assert forall|k: nat| k < self.spec_tmp() implies self.spec_names().contains(#[trigger] decimal(k)) by {
                        assert(names0.contains(decimal(k)));
                        lemma_push_keeps(names0, r@, decimal(k));
                    }
                }
                r
            },
            None => {
                let t0 = self.tmp_index;
                let mut t = t0;
                let ghost mut seen: Seq<Seq<char>> = Seq::empty();
                let mut c = String::new();
                loop
                    invariant
                        self.spec_names() == names0,
                        t0 + names0.len() + 1 <= usize::MAX,
                        t0 <= t,
                        seen.len() == t - t0,
                        seen.no_duplicates(),
                        forall|k: int| 0 <= k < seen.len() ==> #[trigger] seen[k] == decimal((t0 + k) as nat),
                        forall|k: int| 0 <= k < seen.len() ==> names0.contains(#[trigger] seen[k]),
                        forall|j: nat| t0 <= j < t ==> names0.contains(#[trigger] decimal(j)),
                    ensures
                        t0 <= t,
                        t + 1 <= usize::MAX,
                        c@ == decimal(t as nat),
                        !names0.contains(c@),
                        forall|j: nat| t0 <= j < t ==> names0.contains(#[trigger] decimal(j)),
                    decreases names0.len() + t0 + 1 - t,
                {
                    proof {
                        lemma_pigeonhole(seen, names0);
                    }
                    let mut cand = String::new();
                    push_decimal(&mut cand, t as u128);
                    assert(cand@ =~= decimal(t as nat));
                    if !self.contains(&cand) {
                        c = cand;
                        break;
                    }
                    proof {
                        let ghost c_seq = cand@;
                        assert forall|k: int| 0 <= k < seen.len() implies seen[k] != c_seq by {
                            lemma_decimal_distinct((t0 + k) as nat, t as nat);
                        }
                        let s2 = seen.push(c_seq);
                        assert forall|a: int, b: int| 0 <= a < b < s2.len() implies s2[a] != s2[b] by {
                            if b == s2.len() - 1 {
                                assert(s2[a] == seen[a]);
                            } else {
                                assert(seen[a] != seen[b]);
                            }
                        }
                        seen = s2;
                    }
                    t = t + 1;
                }
                let r = c.clone();
                self.names.push(c);
                self.tmp_index = t + 1;
                proof {
                    assert(self.spec_names() =~= names0.push(r@));
                    assert forall|b: Seq<char>, k: nat| k < self.spec_counter(b) implies self.spec_names().contains(
                        #[trigger] candidate(b, k),
                    ) by {
                        assert(names0.contains(candidate(b, k)));
                        lemma_push_keeps(names0, r@, candidate(b, k));
                    }
                    assert forall|k: nat| k < self.spec_tmp() implies self.spec_names().contains(#[trigger] decimal(k)) by {
                        if k < t {
                            assert(names0.contains(decimal(k)));
                            lemma_push_keeps(names0, r@, decimal(k));
                        } else {
                            assert(self.spec_names().last() == decimal(k));
                        }
                    }
                }
                r
            },
        }
    }
}

} // verus!
