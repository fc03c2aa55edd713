//! FizzBuzz: classifying numbers by divisibility by three and five, and a
//! running tally of the classes up to a bound.
use vstd::prelude::*;

verus! {

/// The numbers that are classified.
pub type FBNum = u64;

/// The class of a number.
#[derive(Clone, Debug)]
pub enum FB {
    Num(FBNum),
    Fizz,
    Buzz,
    FizzBuzz,
}

/// The class of `n`: `FizzBuzz` when three and five divide it, `Fizz` when
/// three alone does, `Buzz` when five alone does, else the number itself.
pub open spec fn classify(n: FBNum) -> FB {
    if n % 3 == 0 && n % 5 == 0 {
        FB::FizzBuzz
    } else if n % 3 == 0 {
        FB::Fizz
    } else if n % 5 == 0 {
        FB::Buzz
    } else {
        FB::Num(n)
    }
}

impl From<FBNum> for FB {
    fn from(n: FBNum) -> FB {
        if n % 3 == 0 && n % 5 == 0 {
            FB::FizzBuzz
        } else if n % 3 == 0 {
            FB::Fizz
        } else if n % 5 == 0 {
            FB::Buzz
        } else {
            FB::Num(n)
        }
    }
}

impl vstd::std_specs::convert::FromSpecImpl<FBNum> for FB {
    open spec fn obeys_from_spec() -> bool {
        true
    }

    open spec fn from_spec(n: FBNum) -> FB {
        classify(n)
    }
}

/// The numbers from 1 to `n` that neither three nor five divides, in order.
pub open spec fn plain_upto(n: nat) -> Seq<FBNum>
    decreases n,
{
    if n == 0 {
        Seq::empty()
    } else if (n % 3 != 0 && n % 5 != 0) {
        plain_upto((n - 1) as nat).push(n as FBNum)
    } else {
        plain_upto((n - 1) as nat)
    }
}

/// How many of the numbers from 1 to `n` fall in each class: plain numbers,
/// `Fizz`, `Buzz` and `FizzBuzz`.
pub open spec fn class_counts(n: nat) -> (nat, nat, nat, nat)
    decreases n,
{
    if n == 0 {
        (0, 0, 0, 0)
    } else {
        let c = class_counts((n - 1) as nat);
        if n % 3 == 0 && n % 5 == 0 {
            (c.0, c.1, c.2, c.3 + 1)
        } else if n % 3 == 0 {
            (c.0, c.1 + 1, c.2, c.3)
        } else if n % 5 == 0 {
            (c.0, c.1, c.2 + 1, c.3)
        } else {
            (c.0 + 1, c.1, c.2, c.3)
        }
    }
}

/// The four counts add up to `n`.
proof fn lemma_class_counts_sum(n: nat)
    ensures
        class_counts(n).0 + class_counts(n).1 + class_counts(n).2 + class_counts(n).3 == n,
    decreases n,
{
    if n > 0 {
        lemma_class_counts_sum((n - 1) as nat);
    }
}

/// A tally of plain numbers, `Fizz`, `Buzz` and `FizzBuzz`.
#[derive(Clone, Debug)]
pub struct FBStats {
    nums: usize,
    fizz: usize,
    buzz: usize,
    fizzbuzz: usize,
}

impl View for FBStats {
    type V = (nat, nat, nat, nat);

    /// The four counts, in the order plain, `Fizz`, `Buzz`, `FizzBuzz`.
    closed spec fn view(&self) -> (nat, nat, nat, nat) {
        (self.nums as nat, self.fizz as nat, self.buzz as nat, self.fizzbuzz as nat)
    }
}

impl FBStats {
    /// A tally with every count at zero.
    pub fn new() -> (r: Self)
        ensures
            r@ == (0nat, 0nat, 0nat, 0nat),
    {
        FBStats { nums: 0, fizz: 0, buzz: 0, fizzbuzz: 0 }
    }
}

/// The plain numbers and the tally of every class from 1 up to `last`.
#[derive(Clone, Debug)]
pub struct FBSet {
    pub nums: Vec<FBNum>,
    pub last: FBNum,
    pub stats: FBStats,
}

impl FBSet {
    /// `nums` and `stats` describe the numbers from 1 to `last`.
    pub open spec fn wf(&self) -> bool {
        &&& self.nums@ == plain_upto(self.last as nat)
        &&& self.stats@ == class_counts(self.last as nat)
    }

    /// The set for the numbers from 1 to `count`; the tallies are `usize`,
    /// so `count` must fit in one.
    pub fn new(count: FBNum) -> (r: Self)
        requires
            count <= usize::MAX,
        ensures
            r.wf(),
            r.last == count,
    {
        let mut fbset = FBSet { last: 0, nums: Vec::new(), stats: FBStats::new() };
        assert(fbset.nums@ =~= plain_upto(0));
        fbset.update(count);
        fbset
    }

    /// Extends the set to the numbers from 1 to `count`; a `count` not above
    /// `last` leaves it unchanged. The tallies are `usize`, so `count` must
    /// fit in one.
    pub fn update(&mut self, count: FBNum)
        requires
            old(self).wf(),
            count <= usize::MAX,
        ensures
            final(self).wf(),
            final(self).last == if count > old(self).last {
                count
            } else {
                old(self).last
            },
    {
        let mut num: FBNum = self.last;
        while num < count
            invariant
                self.nums@ == plain_upto(num as nat),
                self.stats@ == class_counts(num as nat),
                self.last == old(self).last,
                num == old(self).last || (old(self).last < num && num <= count),
                count <= usize::MAX,
            decreases count - num,
        {
            num = num + 1;
            proof {
                lemma_class_counts_sum((num - 1) as nat);
            }
            match FB::from(num) {
                FB::Fizz => self.stats.fizz = self.stats.fizz + 1,
                FB::Buzz => self.stats.buzz = self.stats.buzz + 1,
                FB::FizzBuzz => self.stats.fizzbuzz = self.stats.fizzbuzz + 1,
                FB::Num(n) => {
                    self.stats.nums = self.stats.nums + 1;
                    self.nums.push(n);
                },
            }
        }
        if count > self.last {
            self.last = count;
        }
    }
}

} // verus!
