//! The equaliser description: one line for the preamp and one line for each filter.
//!
//! The numbers of a description arrive as text, written by the caller. This module puts the
//! filters in the order of their centres, numbers them from one and lays the lines out.
use crate::nearest::{closest, sorted, stable_order};
use vstd::prelude::*;

verus! {

/// The numbers of one filter, as they are to appear in its line.
#[derive(Debug, PartialEq, Eq)]
pub struct Entry {
    /// The rank of the centre: of two filters the one with the lower centre has the smaller
    /// rank.
    pub rank: i64,
    pub center: String,
    pub gain: String,
    pub quality: String,
}

/// The character of a decimal digit.
pub open spec fn digit(d: nat) -> char {
    if d == 0 {
        '0'
    } else if d == 1 {
        '1'
    } else if d == 2 {
        '2'
    } else if d == 3 {
        '3'
    } else if d == 4 {
        '4'
    } else if d == 5 {
        '5'
    } else if d == 6 {
        '6'
    } else if d == 7 {
        '7'
    } else if d == 8 {
        '8'
    } else {
        '9'
    }
}

/// A number in decimal digits, without leading zeros.
pub open spec fn decimal(n: nat) -> Seq<char>
    decreases n,
{
    if n < 10 {
        seq![digit(n)]
    } else {
        decimal(n / 10).push(digit(n % 10))
    }
}

/// The line of the filter with the given number.
pub open spec fn filter_line(number: nat, entry: Entry) -> Seq<char> {
    "Filter "@ + decimal(number) + ": ON PK Fc "@ + entry.center@ + " Hz Gain "@ + entry.gain@
        + " dB Q "@ + entry.quality@
}

/// The lines of the filters, numbered from one in their order, with a line break between each
/// two.
pub open spec fn filter_lines(entries: Seq<Entry>) -> Seq<char>
    decreases entries.len(),
{
    if entries.len() == 0 {
        Seq::empty()
    } else if entries.len() == 1 {
        filter_line(1, entries[0])
    } else {
        filter_lines(entries.drop_last()) + "\n"@ + filter_line(entries.len(), entries.last())
    }
}

/// The whole description: the line of the preamp, a line break, and the lines of the filters.
pub open spec fn description(preamp: Seq<char>, entries: Seq<Entry>) -> Seq<char> {
    "Preamp: "@ + preamp + " dB\n"@ + filter_lines(entries)
}

/// The text of one decimal digit.
fn digit_text(d: usize) -> (s: &'static str)
    requires
        d < 10,
    ensures
        s@ == seq![digit(d as nat)],
{
    proof {
        reveal_strlit("0");
        reveal_strlit("1");
        reveal_strlit("2");
        reveal_strlit("3");
        reveal_strlit("4");
        reveal_strlit("5");
        reveal_strlit("6");
        reveal_strlit("7");
        reveal_strlit("8");
        reveal_strlit("9");
    }
    let s: &'static str = if d == 0 {
        "0"
    } else if d == 1 {
        "1"
    } else if d == 2 {
        "2"
    } else if d == 3 {
        "3"
    } else if d == 4 {
        "4"
    } else if d == 5 {
        "5"
    } else if d == 6 {
        "6"
    } else if d == 7 {
        "7"
    } else if d == 8 {
        "8"
    } else {
        "9"
    };
    assert(s@ =~= seq![digit(d as nat)]);
    s
}

/// Writes a number in decimal digits at the end of the text.
pub fn push_decimal(out: &mut String, n: usize)
    ensures
        final(out)@ == old(out)@ + decimal(n as nat),
    decreases n,
{
    if n >= 10 {
        push_decimal(out, n / 10);
    }
    out.append(digit_text(n % 10));
    proof {
        if n >= 10 {
            let front = decimal((n / 10) as nat);
            let last = digit((n % 10) as nat);
            assert(old(out)@ + front + seq![last] =~= old(out)@ + front.push(last));
        }
    }
}

/// Writes the line of the filter with the given number at the end of the text.
pub fn push_filter_line(out: &mut String, number: usize, entry: &Entry)
    ensures
        final(out)@ == old(out)@ + filter_line(number as nat, *entry),
{
    out.append("Filter ");
    push_decimal(out, number);
    out.append(": ON PK Fc ");
    out.append(entry.center.as_str());
    out.append(" Hz Gain ");
    out.append(entry.gain.as_str());
    out.append(" dB Q ");
    out.append(entry.quality.as_str());
    assert(out@ =~= old(out)@ + filter_line(number as nat, *entry));
}

/// The ranks of the filters, in the order given.
pub open spec fn ranks(entries: Seq<Entry>) -> Seq<i64> {
    entries.map_values(|e: Entry| e.rank)
}

/// The filters taken in the order that `order` names.
pub open spec fn arranged(entries: Seq<Entry>, order: Seq<usize>) -> Seq<Entry> {
    Seq::new(order.len(), |k: int| entries[order[k] as int])
}

/// The equaliser description of a bank: its preamp, then its filters by ascending centre.
/// Filters with the same centre stay in the order given.
pub fn describe(preamp: &str, entries: &Vec<Entry>) -> (out: String)
    ensures
        out@ == description(preamp@, arranged(entries@, sorted(ranks(entries@)))),
{
    let n: usize = entries.len();
    let mut keys: Vec<i64> = Vec::new();
    let mut j: usize = 0;
    while j < n
        invariant
            n == entries.len(),
            j <= n,
            keys@ == ranks(entries@.take(j as int)),
        decreases n - j,
    {
        keys.push(entries[j].rank);
        proof {
            assert(entries@.take(j + 1) == entries@.take(j as int).push(entries@[j as int]));
            assert(keys@ =~= ranks(entries@.take(j + 1)));
        }
        j = j + 1;
    }
    proof {
        assert(entries@.take(n as int) == entries@);
    }
    let order: Vec<usize> = closest(&keys);
    let ghost lined = arranged(entries@, order@);
    let mut out: String = String::new();
    out.append("Preamp: ");
    out.append(preamp);
    out.append(" dB\n");
    let ghost head = out@;
    assert(head =~= "Preamp: "@ + preamp@ + " dB\n"@);
    let mut i: usize = 0;
    while i < n
        invariant
            n == entries.len(),
            n == order.len(),
            i <= n,
            stable_order(ranks(entries@), order@),
            lined == arranged(entries@, order@),
            out@ == head + filter_lines(lined.take(i as int)),
        decreases n - i,
    {
        let ghost before = lined.take(i as int);
        let ghost upto = lined.take(i + 1);
        proof {
            assert(upto.drop_last() == before);
            assert(upto.last() == entries@[order@[i as int] as int]);
            assert(order@[i as int] < n);
        }
        if i > 0 {
            out.append("\n");
        }
        push_filter_line(&mut out, i + 1, &entries[order[i]]);
        proof {
            if i == 0 {
                assert(filter_lines(before) == Seq::<char>::empty());
                assert(upto[0] == entries@[order@[0] as int]);
            }
            assert(out@ =~= head + filter_lines(upto));
        }
        i = i + 1;
    }
    proof {
        assert(lined.take(n as int) == lined);
    }
    out
}

} // verus!
