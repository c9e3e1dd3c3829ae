//! Participants of one settlement run.

use vstd::prelude::*;

use crate::money::Money;
use crate::text::{dec_digits, push_decimal, string_push_str};

verus! {

/// The mathematical value of a participant: either one named contributor with
/// a spend, or an anonymous group of a given size that spent nothing.
pub enum PersonSpec {
    Named { name: Seq<char>, money_spent: int },
    Unnamed { size: nat },
}

/// A participant in the split of the bill: a specific named person who paid
/// some amount, or a group of `size` anonymous people who paid nothing and
/// are tracked only as aggregate debtors.
#[derive(Debug)]
pub enum Person {
    Named { name: String, money_spent: Money },
    Unnamed { size: usize },
}

impl View for Person {
    type V = PersonSpec;

    open spec fn view(&self) -> PersonSpec {
        match self {
            Person::Named { name, money_spent } => PersonSpec::Named {
                name: name@,
                money_spent: money_spent@,
            },
            Person::Unnamed { size } => PersonSpec::Unnamed { size: *size as nat },
        }
    }
}

/// What the participant spent: a named person's amount, zero for a group.
pub open spec fn spec_money_spent(p: PersonSpec) -> int {
    match p {
        PersonSpec::Named { money_spent, .. } => money_spent,
        PersonSpec::Unnamed { .. } => 0,
    }
}

/// How many people the participant stands for: one named person, or the
/// declared size of an anonymous group.
pub open spec fn spec_size(p: PersonSpec) -> nat {
    match p {
        PersonSpec::Named { .. } => 1,
        PersonSpec::Unnamed { size } => size,
    }
}

/// The display label of a participant.
pub open spec fn spec_identifier(p: PersonSpec) -> Seq<char> {
    match p {
        PersonSpec::Named { name, .. } => name,
        PersonSpec::Unnamed { size } => "Outras "@ + dec_digits(size) + " pessoas"@,
    }
}

/// The number of people a group of participants stands for.
pub open spec fn size_sum(mem: Seq<PersonSpec>) -> int
    decreases mem.len(),
{
    if mem.len() == 0 {
        0
    } else {
        size_sum(mem.drop_last()) + spec_size(mem.last())
    }
}

/// The total everyone together spent.
pub open spec fn spent_sum(mem: Seq<PersonSpec>) -> int
    decreases mem.len(),
{
    if mem.len() == 0 {
        0
    } else {
        spent_sum(mem.drop_last()) + spec_money_spent(mem.last())
    }
}

/// Taking one more participant adds their size and their spend.
pub proof fn lemma_sums_take_succ(mem: Seq<PersonSpec>, i: int)
    requires
        0 <= i < mem.len(),
    ensures
        size_sum(mem.take(i + 1)) == size_sum(mem.take(i)) + spec_size(mem[i]),
        spent_sum(mem.take(i + 1)) == spent_sum(mem.take(i)) + spec_money_spent(mem[i]),
{
    assert(mem.take(i + 1).drop_last() =~= mem.take(i));
    assert(mem.take(i + 1).last() == mem[i]);
}

/// Sizes are never negative, so a prefix never outweighs the whole, and one
/// participant never outweighs the total.
pub proof fn lemma_size_sum_bounds(mem: Seq<PersonSpec>, i: int)
    requires
        0 <= i <= mem.len(),
    ensures
        0 <= size_sum(mem.take(i)) <= size_sum(mem),
        forall|d: int| 0 <= d < mem.len() ==> spec_size(#[trigger] mem[d]) <= size_sum(mem),
    decreases mem.len(),
{
    if i == mem.len() {
        assert(mem.take(i) =~= mem);
    }
    if mem.len() > 0 {
        let t = mem.drop_last();
        assert(forall|k: int| 0 <= k < t.len() ==> t[k] == mem[k]);
        if i < mem.len() {
            assert(mem.take(i) =~= t.take(i));
        }
        lemma_size_sum_bounds(t, if i < t.len() {
            i
        } else {
            t.len() as int
        });
        assert(mem.last() == mem[mem.len() - 1]);
    }
}

/// With nonnegative spends, a prefix never exceeds the total spend.
pub proof fn lemma_spent_sum_bounds(mem: Seq<PersonSpec>, i: int)
    requires
        0 <= i <= mem.len(),
        forall|k: int| 0 <= k < mem.len() ==> spec_money_spent(#[trigger] mem[k]) >= 0,
    ensures
        0 <= spent_sum(mem.take(i)) <= spent_sum(mem),
    decreases mem.len(),
{
    if i == mem.len() {
        assert(mem.take(i) =~= mem);
        if mem.len() > 0 {
            let t = mem.drop_last();
            assert(forall|k: int| 0 <= k < t.len() ==> t[k] == mem[k]);
            lemma_spent_sum_bounds(t, t.len() as int);
            assert(mem.last() == mem[mem.len() - 1]);
        }
    } else {
        let t = mem.drop_last();
        assert(forall|k: int| 0 <= k < t.len() ==> t[k] == mem[k]);
        assert(mem.take(i) =~= t.take(i));
        lemma_spent_sum_bounds(t, i);
        assert(mem.last() == mem[mem.len() - 1]);
    }
}

/// At least one person stands behind every participant, so a group of `n`
/// participant records stands for at least `n` people.
pub proof fn lemma_size_sum_at_least_len(mem: Seq<PersonSpec>)
    requires
        forall|k: int| 0 <= k < mem.len() ==> spec_size(#[trigger] mem[k]) >= 1,
    ensures
        size_sum(mem) >= mem.len(),
    decreases mem.len(),
{
    if mem.len() > 0 {
        let t = mem.drop_last();
        assert(forall|k: int| 0 <= k < t.len() ==> t[k] == mem[k]);
        lemma_size_sum_at_least_len(t);
        assert(mem.last() == mem[mem.len() - 1]);
    }
}

impl Person {
    /// A named participant who spent `money_spent`.
    pub fn named(name: &str, money_spent: Money) -> (r: Person)
        ensures
            r@ == (PersonSpec::Named { name: name@, money_spent: money_spent@ }),
    {
        Person::Named { name: name.to_owned(), money_spent }
    }

    /// An anonymous group of `size` people (at least one) who spent nothing.
    pub fn unnamed(size: usize) -> (r: Person)
        requires
            1 <= size,
        ensures
            r@ == (PersonSpec::Unnamed { size: size as nat }),
    {
        Person::Unnamed { size }
    }

    /// The display label: the name of a named participant, or a description
    /// of an anonymous group.
    pub fn identifier(&self) -> (r: String)
        ensures
            r@ == spec_identifier(self@),
    {
        match self {
            Person::Named { name, money_spent: _ } => name.clone(),
            Person::Unnamed { size } => {
                let mut s = String::new();
                string_push_str(&mut s, "Outras ");
                push_decimal(&mut s, *size as u64);
                string_push_str(&mut s, " pessoas");
                s
            },
        }
    }

    /// What this participant paid up front; zero for an anonymous group.
    pub fn money_spent(&self) -> (r: Money)
        ensures
            r@ == spec_money_spent(self@),
    {
        match self {
            Person::Named { money_spent, .. } => *money_spent,
            Person::Unnamed { .. } => Money::from_raw(0),
        }
    }

    /// The number of people this participant stands for.
    pub fn size(&self) -> (r: usize)
        ensures
            r as nat == spec_size(self@),
    {
        match self {
            Person::Named { .. } => 1,
            Person::Unnamed { size } => *size,
        }
    }
}

impl Clone for Person {
    fn clone(&self) -> (r: Self)
        ensures
            r@ == self@,
    {
        match self {
            Person::Named { name, money_spent } => Person::Named {
                name: name.clone(),
                money_spent: *money_spent,
            },
            Person::Unnamed { size } => Person::Unnamed { size: *size },
        }
    }
}

impl PartialEq for Person {
    fn eq(&self, other: &Self) -> (r: bool) {
        match (self, other) {
            (
                Person::Named { name: a, money_spent: m },
                Person::Named { name: b, money_spent: n },
            ) => *a == *b && m.raw() == n.raw(),
            (Person::Unnamed { size: a }, Person::Unnamed { size: b }) => *a == *b,
            _ => false,
        }
    }
}

impl vstd::std_specs::cmp::PartialEqSpecImpl for Person {
    open spec fn obeys_eq_spec() -> bool {
        true
    }

    open spec fn eq_spec(&self, other: &Self) -> bool {
        self@ == other@
    }
}

} // verus!
