//! The reindeer contest: who leads the herd in what, and how it is told.

use crate::text::push_char;
use vstd::prelude::*;
use vstd::string::StringExecFns;

verus! {

/// A reindeer, as far as the contest looks at it on whole numbers.
#[derive(Clone, Debug, PartialEq, Eq)]
pub struct Reindeer {
    pub name: String,
    pub strength: i64,
    pub height: i64,
    pub antler_width: i64,
    pub snow_magic_power: i64,
    pub favorite_food: String,
    pub candies: i64,
}

/// What is told of the four winners; four empty texts for an empty herd.
#[derive(Clone, Debug, PartialEq, Eq)]
pub struct ContestOutput {
    pub fastest: String,
    pub tallest: String,
    pub magician: String,
    pub consumer: String,
}

/// The sum of the strengths of a herd.
pub open spec fn strength_sum(herd: Seq<Reindeer>) -> int
    decreases herd.len(),
{
    if herd.len() == 0 {
        0
    } else {
        strength_sum(herd.drop_last()) + herd.last().strength
    }
}

/// Adds up the strengths of the herd; `None` where the sum does not fit.
pub fn strength(herd: &Vec<Reindeer>) -> (r: Option<i64>)
    ensures
        r == if i64::MIN <= strength_sum(herd@) <= i64::MAX {
            Some(strength_sum(herd@) as i64)
        } else {
            None
        },
{
    let mut sum: i128 = 0;
    let mut i: usize = 0;
    proof {
        assert(herd@.take(0) =~= Seq::empty());
    }
    while i < herd.len()
        invariant
            i <= herd.len(),
            sum == strength_sum(herd@.take(i as int)),
            -(i * 0x8000_0000_0000_0000) <= sum <= i * 0x8000_0000_0000_0000,
        decreases herd.len() - i,
    {
        proof {
            assert(herd@.take(i + 1).drop_last() =~= herd@.take(i as int));
        }
        sum = sum + herd[i].strength as i128;
        i = i + 1;
    }
    proof {
        assert(herd@.take(i as int) =~= herd@);
    }
    if sum < i64::MIN as i128 || sum > i64::MAX as i128 {
        None
    } else {
        Some(sum as i64)
    }
}

/// The character for a digit.
pub open spec fn digit_char(d: int) -> char {
    if d == 0 {
        '0'
    } else if d == 1 {
        '1'
    } else if d == 2 {
        '2'
    } else if d == 3 {
        '3'
    } else if d == 4 {
        '4'
    } else if d == 5 {
        '5'
    } else if d == 6 {
        '6'
    } else if d == 7 {
        '7'
    } else if d == 8 {
        '8'
    } else {
        '9'
    }
}

/// A natural number written in decimal digits, without leading zeros.
pub open spec fn digits_of(n: nat) -> Seq<char>
    decreases n,
{
    if n < 10 {
        seq![digit_char(n as int)]
    } else {
        digits_of(n / 10).push(digit_char((n % 10) as int))
    }
}

/// A whole number written in decimal, with `-` before a negative one.
pub open spec fn decimal(n: int) -> Seq<char> {
    if n < 0 {
        seq!['-'] + digits_of((-n) as nat)
    } else {
        digits_of(n as nat)
    }
}

fn digit(d: u64) -> (c: char)
    requires
        d < 10,
    ensures
        c == digit_char(d as int),
{
    if d == 0 {
        '0'
    } else if d == 1 {
        '1'
    } else if d == 2 {
        '2'
    } else if d == 3 {
        '3'
    } else if d == 4 {
        '4'
    } else if d == 5 {
        '5'
    } else if d == 6 {
        '6'
    } else if d == 7 {
        '7'
    } else if d == 8 {
        '8'
    } else {
        '9'
    }
}

/// The digits of `n` that are still to be written once its last digits
/// have been taken off down to `n`: none for 0.
spec fn leading(n: nat) -> Seq<char> {
    if n == 0 {
        Seq::empty()
    } else {
        digits_of(n)
    }
}

/// Puts `n` in decimal behind `out`.
pub fn push_decimal(out: &mut String, n: i64)
    ensures
        final(out)@ == old(out)@ + decimal(n as int),
{
    let ghost before = out@;
    let size: u64 = if n < 0 {
        push_char(out, '-');
        (-(n as i128)) as u64
    } else {
        n as u64
    };
    let ghost sign = out@;
    if size < 10 {
        push_char(out, digit(size));
        assert(out@ =~= before + decimal(n as int));
        return ;
    }
    let mut rest = size;
    let mut low: Vec<char> = Vec::new();
    while rest > 0
        invariant
            digits_of(size as nat) == leading(rest as nat) + low@.reverse(),
        decreases rest,
    {
        let ghost was = low@;
        low.push(digit(rest % 10));
        proof {
            assert(low@.reverse() =~= seq![digit_char((rest % 10) as int)] + was.reverse());
            assert(leading(rest as nat) =~= leading((rest / 10) as nat).push(
                digit_char((rest % 10) as int),
            ));
        }
        rest = rest / 10;
    }
    let mut i = low.len();
    while i > 0
        invariant
            i <= low.len(),
            out@ == sign + low@.reverse().take(low.len() - i),
        decreases i,
    {
        i = i - 1;
        push_char(out, low[i]);
        proof {
            let turned = low@.reverse();
            assert(turned.take(low.len() - i) =~= turned.take(low.len() - i - 1).push(
                low[i as int],
            ));
        }
    }
    proof {
        assert(low@.reverse().take(low.len() as int) =~= low@.reverse());
        assert(out@ =~= before + decimal(n as int));
    }
}

/// What is told of the fastest reindeer.
pub open spec fn fastest_line(r: Reindeer) -> Seq<char> {
    "Speeding past the finish line with a strength of "@ + decimal(r.strength as int) + " is "@
        + r.name@
}

/// What is told of the tallest reindeer.
pub open spec fn tallest_line(r: Reindeer) -> Seq<char> {
    r.name@ + " is standing tall with his "@ + decimal(r.antler_width as int)
        + " cm wide antlers"@
}

/// What is told of the reindeer with the most snow magic.
pub open spec fn magician_line(r: Reindeer) -> Seq<char> {
    r.name@ + " could blast you away with a snow magic power of "@ + decimal(
        r.snow_magic_power as int,
    )
}

/// What is told of the reindeer that ate the most candies.
pub open spec fn consumer_line(r: Reindeer) -> Seq<char> {
    r.name@ + " ate lots of candies, but also some "@ + r.favorite_food@
}

/// The heights of a herd, in the same positions.
pub open spec fn heights(herd: Seq<Reindeer>) -> Seq<int> {
    herd.map_values(|r: Reindeer| r.height as int)
}

/// The snow magic powers of a herd, in the same positions.
pub open spec fn powers(herd: Seq<Reindeer>) -> Seq<int> {
    herd.map_values(|r: Reindeer| r.snow_magic_power as int)
}

/// The candies of a herd, in the same positions.
pub open spec fn candies(herd: Seq<Reindeer>) -> Seq<int> {
    herd.map_values(|r: Reindeer| r.candies as int)
}

/// The value at `at` is the largest of the values, and the first of the
/// largest.
pub open spec fn leads(values: Seq<int>, at: int) -> bool {
    &&& 0 <= at < values.len()
    &&& forall|j: int| 0 <= j < values.len() ==> #[trigger] values[j] <= values[at]
    &&& forall|j: int| 0 <= j < at ==> #[trigger] values[j] < values[at]
}

/// The place of the largest of the values, the first of several.
pub open spec fn leader(values: Seq<int>) -> int {
    choose|at: int| leads(values, at)
}

/// One place at most leads.
pub proof fn lemma_leader_is_unique(values: Seq<int>, at: int)
    requires
        leads(values, at),
    ensures
        leader(values) == at,
{
    let other = leader(values);
    assert(leads(values, other));
    if other < at {
        assert(values[other] < values[at]);
        assert(values[at] <= values[other]);
    } else if at < other {
        assert(values[at] < values[other]);
        assert(values[other] <= values[at]);
    }
}

/// The winners of a contest, by their places in the herd.
#[derive(Clone, Copy, Debug, PartialEq, Eq)]
pub struct Winners {
    pub tallest: usize,
    pub magician: usize,
    pub consumer: usize,
}

/// Finds the tallest reindeer, the one with the most snow magic and the
/// one that ate the most candies, the first of several in each case;
/// `None` for an empty herd.
pub fn winners(herd: &Vec<Reindeer>) -> (r: Option<Winners>)
    ensures
        herd.len() == 0 <==> r is None,
        r matches Some(w) ==> {
            &&& leads(heights(herd@), w.tallest as int)
            &&& leads(powers(herd@), w.magician as int)
            &&& leads(candies(herd@), w.consumer as int)
            &&& w.tallest == leader(heights(herd@))
            &&& w.magician == leader(powers(herd@))
            &&& w.consumer == leader(candies(herd@))
        },
{
    if herd.len() == 0 {
        return None;
    }
    let mut tallest: usize = 0;
    let mut magician: usize = 0;
    let mut consumer: usize = 0;
    let mut i: usize = 0;
    while i < herd.len()
        invariant
            i <= herd.len(),
            herd.len() > 0,
            i == 0 ==> tallest == 0 && magician == 0 && consumer == 0,
            i > 0 ==> leads(heights(herd@.take(i as int)), tallest as int),
            i > 0 ==> leads(powers(herd@.take(i as int)), magician as int),
            i > 0 ==> leads(candies(herd@.take(i as int)), consumer as int),
        decreases herd.len() - i,
    {
        let ghost seen = herd@.take(i as int);
        let ghost more = herd@.take(i + 1);
        if herd[tallest].height < herd[i].height {
            tallest = i;
        }
        if herd[magician].snow_magic_power < herd[i].snow_magic_power {
            magician = i;
        }
        if herd[consumer].candies < herd[i].candies {
            consumer = i;
        }
        proof {
            assert forall|j: int| 0 <= j < more.len() implies #[trigger] heights(more)[j]
                <= heights(more)[tallest as int] by {
                if j < i {
                    assert(heights(seen)[j] == heights(more)[j]);
                }
            }
            assert forall|j: int| 0 <= j < tallest implies #[trigger] heights(more)[j] < heights(
                more,
            )[tallest as int] by {
                assert(heights(seen)[j] == heights(more)[j]);
            }
            assert forall|j: int| 0 <= j < more.len() implies #[trigger] powers(more)[j] <= powers(
                more,
            )[magician as int] by {
                if j < i {
                    assert(powers(seen)[j] == powers(more)[j]);
                }
            }
            assert forall|j: int| 0 <= j < magician implies #[trigger] powers(more)[j] < powers(
                more,
            )[magician as int] by {
                assert(powers(seen)[j] == powers(more)[j]);
            }
            assert forall|j: int| 0 <= j < more.len() implies #[trigger] candies(more)[j]
                <= candies(more)[consumer as int] by {
                if j < i {
                    assert(candies(seen)[j] == candies(more)[j]);
                }
            }
            assert forall|j: int| 0 <= j < consumer implies #[trigger] candies(more)[j] < candies(
                more,
            )[consumer as int] by {
                assert(candies(seen)[j] == candies(more)[j]);
            }
        }
        i = i + 1;
    }
    proof {
        assert(herd@.take(i as int) =~= herd@);
        lemma_leader_is_unique(heights(herd@), tallest as int);
        lemma_leader_is_unique(powers(herd@), magician as int);
        lemma_leader_is_unique(candies(herd@), consumer as int);
    }
    Some(Winners { tallest, magician, consumer })
}

/// Tells the contest: a line on each winner, where `fastest` is the place
/// of the fastest reindeer in the herd. For an empty herd the four lines
/// are empty.
pub fn contest(herd: &Vec<Reindeer>, fastest: usize) -> (out: ContestOutput)
    requires
        herd.len() > 0 ==> fastest < herd.len(),
    ensures
        herd.len() == 0 ==> out.fastest@.len() == 0 && out.tallest@.len() == 0
            && out.magician@.len() == 0 && out.consumer@.len() == 0,
        herd.len() > 0 ==> {
            &&& out.fastest@ == fastest_line(herd[fastest as int])
            &&& out.tallest@ == tallest_line(herd[leader(heights(herd@))])
            &&& out.magician@ == magician_line(herd[leader(powers(herd@))])
            &&& out.consumer@ == consumer_line(herd[leader(candies(herd@))])
        },
{
    let mut fast = String::new();
    let mut tall = String::new();
    let mut magic = String::new();
    let mut most = String::new();
    match winners(herd) {
        None => {},
        Some(w) => {
            let r = &herd[fastest];
            fast.append("Speeding past the finish line with a strength of ");
            push_decimal(&mut fast, r.strength);
            fast.append(" is ");
            fast.append(r.name.as_str());
            let r = &herd[w.tallest];
            tall.append(r.name.as_str());
            tall.append(" is standing tall with his ");
            push_decimal(&mut tall, r.antler_width);
            tall.append(" cm wide antlers");
            let r = &herd[w.magician];
            magic.append(r.name.as_str());
            magic.append(" could blast you away with a snow magic power of ");
            push_decimal(&mut magic, r.snow_magic_power);
            let r = &herd[w.consumer];
            most.append(r.name.as_str());
            most.append(" ate lots of candies, but also some ");
            most.append(r.favorite_food.as_str());
            proof {
                assert(fast@ =~= fastest_line(herd[fastest as int]));
                assert(tall@ =~= tallest_line(herd[leader(heights(herd@))]));
                assert(magic@ =~= magician_line(herd[leader(powers(herd@))]));
                assert(most@ =~= consumer_line(herd[leader(candies(herd@))]));
            }
        },
    }
    ContestOutput { fastest: fast, tallest: tall, magician: magic, consumer: most }
}

} // verus!
