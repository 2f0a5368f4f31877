//! The text of a workspace label.

use vstd::prelude::*;
use vstd::string::*;

verus! {

/// The character of a decimal digit.
pub open spec fn digit_char(d: int) -> char {
    seq!['0', '1', '2', '3', '4', '5', '6', '7', '8', '9'][d]
}

/// A natural number in decimal, without leading zeros.
pub open spec fn decimal_nat(n: nat) -> Seq<char>
    decreases n,
{
    if n < 10 {
        seq![digit_char(n as int)]
    } else {
        decimal_nat(n / 10).push(digit_char((n % 10) as int))
    }
}

/// An integer in decimal, with a minus sign in front of a negative one.
pub open spec fn decimal(n: int) -> Seq<char> {
    if n < 0 {
        seq!['-'] + decimal_nat((-n) as nat)
    } else {
        decimal_nat(n as nat)
    }
}

/// The digit `d` as a text of one character.
fn digit_str(d: u64) -> (s: &'static str)
    requires
        d < 10,
    ensures
        s@ == seq![digit_char(d as int)],
{
    proof {
        reveal_strlit("0");
        reveal_strlit("1");
        reveal_strlit("2");
        reveal_strlit("3");
        reveal_strlit("4");
        reveal_strlit("5");
        reveal_strlit("6");
        reveal_strlit("7");
        reveal_strlit("8");
        reveal_strlit("9");
    }
    let s = if d == 0 {
        "0"
    } else if d == 1 {
        "1"
    } else if d == 2 {
        "2"
    } else if d == 3 {
        "3"
    } else if d == 4 {
        "4"
    } else if d == 5 {
        "5"
    } else if d == 6 {
        "6"
    } else if d == 7 {
        "7"
    } else if d == 8 {
        "8"
    } else {
        "9"
    };
    assert(s@ =~= seq![digit_char(d as int)]);
    s
}

/// Appends `n` in decimal to `out`.
pub fn push_decimal_nat(out: &mut String, n: u64)
    ensures
        final(out)@ == old(out)@ + decimal_nat(n as nat),
    decreases n,
{
    if n >= 10 {
        push_decimal_nat(out, n / 10);
    }
    out.append(digit_str(n % 10));
    assert(out@ =~= old(out)@ + decimal_nat(n as nat));
}

/// Appends `n` in decimal to `out`.
pub fn push_decimal(out: &mut String, n: i64)
    ensures
        final(out)@ == old(out)@ + decimal(n as int),
{
    if n < 0 {
        proof {
            reveal_strlit("-");
        }
        out.append("-");
        let magnitude: u64 = if n == i64::MIN {
            9223372036854775808u64
        } else {
            (-n) as u64
        };
        push_decimal_nat(out, magnitude);
        assert(out@ =~= old(out)@ + decimal(n as int));
    } else {
        push_decimal_nat(out, n as u64);
    }
}

/// The texts of a row of strings.
pub open spec fn texts(strings: Seq<String>) -> Seq<Seq<char>> {
    strings.map_values(|s: String| s@)
}

/// The icons in their order, with one space between neighbours.
pub open spec fn join_icons(icons: Seq<Seq<char>>) -> Seq<char>
    decreases icons.len(),
{
    if icons.len() == 0 {
        Seq::empty()
    } else if icons.len() == 1 {
        icons[0]
    } else {
        join_icons(icons.drop_last()) + seq![' '] + icons.last()
    }
}

/// The label of a workspace with the number `index` whose windows show
/// `icons`: the number alone where the joined icons are empty, else the
/// number, a colon, a space, the joined icons and a closing space. Without a
/// number the label is a single space.
pub open spec fn label_text(index: Option<i32>, icons: Seq<Seq<char>>) -> Seq<char> {
    match index {
        None => seq![' '],
        Some(number) => {
            let joined = join_icons(icons);
            if joined.len() > 0 {
                decimal(number as int) + seq![':', ' '] + joined + seq![' ']
            } else {
                decimal(number as int)
            }
        },
    }
}

/// Joins the icons with single spaces.
pub fn join_with_spaces(icons: &Vec<String>) -> (joined: String)
    ensures
        joined@ == join_icons(texts(icons@)),
{
    let ghost all = texts(icons@);
    let mut joined = String::new();
    let mut i: usize = 0;
    while i < icons.len()
        invariant
            i <= icons.len(),
            all == texts(icons@),
            joined@ == join_icons(all.take(i as int)),
        decreases icons.len() - i,
    {
        if i > 0 {
            proof {
                reveal_strlit(" ");
            }
            joined.append(" ");
        }
        joined.append(icons[i].as_str());
        proof {
            let upto = all.take(i + 1);
            assert(upto.last() == icons@[i as int]@);
            assert(upto.drop_last() =~= all.take(i as int));
            assert(joined@ =~= join_icons(upto));
        }
        i += 1;
    }
    assert(all.take(i as int) =~= all);
    joined
}

/// The label of a workspace from its number and the icons of its windows.
pub fn synthesize_label(index: Option<i32>, icons: &Vec<String>) -> (label: String)
    ensures
        label@ == label_text(index, texts(icons@)),
{
    proof {
        reveal_strlit(" ");
        reveal_strlit(": ");
    }
    match index {
        None => {
            let label = " ".to_owned();
            assert(label@ =~= seq![' ']);
            label
        },
        Some(number) => {
            let joined = join_with_spaces(icons);
            let mut label = String::new();
            push_decimal(&mut label, number as i64);
            if !joined.as_str().is_empty() {
                label.append(": ");
                label.append(joined.as_str());
                label.append(" ");
            }
            assert(label@ =~= label_text(index, texts(icons@)));
            label
        },
    }
}

/// Without icons the label is the number alone.
pub proof fn lemma_label_without_icons(index: i32)
    ensures
        label_text(Some(index), Seq::empty()) == decimal(index as int),
{
}

/// With two icons the label is the number, a colon, a space, and each icon
/// with a space behind it.
pub proof fn lemma_label_of_two_icons(index: i32, first: Seq<char>, second: Seq<char>)
    ensures
        label_text(Some(index), seq![first, second]) == decimal(index as int) + seq![':', ' ']
            + first + seq![' '] + second + seq![' '],
{
    let icons = seq![first, second];
    assert(icons.drop_last() =~= seq![first]);
    assert(join_icons(icons.drop_last()) == first);
    assert(join_icons(icons) == first + seq![' '] + second);
    assert(label_text(Some(index), icons) =~= decimal(index as int) + seq![':', ' '] + first
        + seq![' '] + second + seq![' ']);
}

/// Without a number the label is a single space, whatever the icons.
pub proof fn lemma_label_without_index(icons: Seq<Seq<char>>)
    ensures
        label_text(None, icons) == seq![' '],
{
}

} // verus!
