use vstd::prelude::*;
use vstd::string::StringExecFns;

verus! {

/// The most numbers a set's text shows.
pub const SHOWN_MAX: usize = 0x100001;

/// The character of the decimal digit `d`.
pub open spec fn digit_char(d: nat) -> char {
    ((48 + d) as u32) as char
}

/// The decimal digits of `n`, with no leading zero.
pub open spec fn decimal(n: nat) -> Seq<char>
    decreases n,
{
    if n < 10 {
        seq![digit_char(n)]
    } else {
        decimal(n / 10) + seq![digit_char(n % 10)]
    }
}

/// The numbers of `items` in decimal, separated by commas, each after the
/// first followed by `tail`.
pub open spec fn listing(items: Seq<usize>, tail: Seq<char>) -> Seq<char>
    decreases items.len(),
{
    if items.len() == 0 {
        Seq::empty()
    } else if items.len() == 1 {
        decimal(items[0] as nat)
    } else {
        listing(items.drop_last(), tail) + seq![','] + decimal(items.last() as nat) + tail
    }
}

/// The text of a set of numbers listed by `items`, of which it holds `len`:
/// `len:<len>-val:{<items>}`, showing at most [`SHOWN_MAX`] numbers.
pub open spec fn set_text(len: nat, items: Seq<usize>, tail: Seq<char>) -> Seq<char> {
    seq!['l', 'e', 'n', ':'] + decimal(len) + seq!['-', 'v', 'a', 'l', ':', '{']
        + listing(items.take(if items.len() < SHOWN_MAX { items.len() as int } else { SHOWN_MAX as int }), tail)
        + seq!['}']
}

/// The one-character text of the decimal digit `d`.
fn digit_str(d: usize) -> (r: &'static str)
    requires
        d < 10,
    ensures
        r@ == seq![digit_char(d as nat)],
{
    proof {
        reveal_strlit("0");
        reveal_strlit("1");
        reveal_strlit("2");
        reveal_strlit("3");
        reveal_strlit("4");
        reveal_strlit("5");
        reveal_strlit("6");
        reveal_strlit("7");
        reveal_strlit("8");
        reveal_strlit("9");
    }
    if d == 0 {
        "0"
    } else if d == 1 {
        "1"
    } else if d == 2 {
        "2"
    } else if d == 3 {
        "3"
    } else if d == 4 {
        "4"
    } else if d == 5 {
        "5"
    } else if d == 6 {
        "6"
    } else if d == 7 {
        "7"
    } else if d == 8 {
        "8"
    } else {
        "9"
    }
}

/// Appends the decimal digits of `n` to `s`.
pub fn push_decimal(s: &mut String, n: usize)
    ensures
        final(s)@ == old(s)@ + decimal(n as nat),
    decreases n,
{
    if n >= 10 {
        push_decimal(s, n / 10);
    }
    s.append(digit_str(n % 10));
    proof {
        if n >= 10 {
            assert(final(s)@ =~= old(s)@ + decimal(n as nat));
        } else {
            assert(final(s)@ =~= old(s)@ + decimal(n as nat));
        }
    }
}

/// The text of a set of `len` numbers listed in order by `items`.
pub fn render_set(len: usize, items: &Vec<usize>, tail: &str) -> (r: String)
    ensures
        r@ == set_text(len as nat, items@, tail@),
{
    proof {
        reveal_strlit("len:");
        reveal_strlit("-val:{");
        reveal_strlit(",");
        reveal_strlit("}");
    }
    let mut s = String::from_str("len:");
    push_decimal(&mut s, len);
    s.append("-val:{");
    let ghost start = s@;
    let n: usize = if items.len() < SHOWN_MAX { items.len() } else { SHOWN_MAX };
    let mut i: usize = 0;
    while i < n
        invariant
            n <= items@.len(),
            n == (if items@.len() < SHOWN_MAX { items@.len() as int } else { SHOWN_MAX as int }),
            i <= n,
            s@ == start + listing(items@.take(i as int), tail@),
        decreases n - i,
    {
        let ghost before = s@;
        if i > 0 {
            s.append(",");
        }
        push_decimal(&mut s, items[i]);
        if i > 0 {
            s.append(tail);
        }
        proof {
            let t = items@.take(i as int + 1);
            assert(t.drop_last() =~= items@.take(i as int));
            assert(t.last() == items@[i as int]);
            if i == 0 {
                assert(items@.take(0) =~= Seq::<usize>::empty());
                assert(listing(t, tail@) == decimal(items@[0] as nat));
                assert(s@ =~= start + listing(t, tail@));
            } else {
                assert(listing(t, tail@) == listing(items@.take(i as int), tail@) + seq![','] + decimal(items@[i as int] as nat) + tail@);
                reveal_strlit(",");
                assert(s@ =~= start + listing(t, tail@));
            }
        }
        i = i + 1;
    }
    s.append("}");
    proof {
        assert(s@ =~= set_text(len as nat, items@, tail@));
    }
    s
}

} // verus!
