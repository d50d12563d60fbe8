//! The pieces of text that reports are made of.

use vstd::arithmetic::power::*;
use vstd::prelude::*;
use vstd::string::*;

verus! {

/// The character of one hexadecimal digit.
pub open spec fn digit_char(d: nat) -> char {
    if d == 0 {
        '0'
    } else if d == 1 {
        '1'
    } else if d == 2 {
        '2'
    } else if d == 3 {
        '3'
    } else if d == 4 {
        '4'
    } else if d == 5 {
        '5'
    } else if d == 6 {
        '6'
    } else if d == 7 {
        '7'
    } else if d == 8 {
        '8'
    } else if d == 9 {
        '9'
    } else if d == 10 {
        'a'
    } else if d == 11 {
        'b'
    } else if d == 12 {
        'c'
    } else if d == 13 {
        'd'
    } else if d == 14 {
        'e'
    } else {
        'f'
    }
}

/// `n` in decimal digits, without leading zeros.
pub open spec fn decimal(n: nat) -> Seq<char>
    decreases n,
{
    if n < 10 {
        seq![digit_char(n)]
    } else {
        decimal(n / 10).push(digit_char(n % 10))
    }
}

/// The last `width` hexadecimal digits of `n`.
pub open spec fn hex(n: nat, width: nat) -> Seq<char>
    decreases width,
{
    if width == 0 {
        Seq::empty()
    } else {
        hex(n / 16, (width - 1) as nat).push(digit_char(n % 16))
    }
}

/// `parts` with `separator` between each two.
pub open spec fn joined(parts: Seq<Seq<char>>, separator: Seq<char>) -> Seq<char>
    decreases parts.len(),
{
    if parts.len() == 0 {
        Seq::empty()
    } else if parts.len() == 1 {
        parts[0]
    } else {
        joined(parts.drop_last(), separator) + separator + parts.last()
    }
}

/// Texts as sequences of characters.
pub open spec fn views(texts: Seq<String>) -> Seq<Seq<char>> {
    texts.map_values(|t: String| t@)
}

/// Static texts as sequences of characters.
pub open spec fn str_views(texts: Seq<&'static str>) -> Seq<Seq<char>> {
    texts.map_values(|t: &'static str| t@)
}

/// Each item once, in the order of its first occurrence.
pub open spec fn distinct<A>(s: Seq<A>) -> Seq<A>
    decreases s.len(),
{
    if s.len() == 0 {
        Seq::empty()
    } else {
        let before = distinct(s.drop_last());
        if before.contains(s.last()) {
            before
        } else {
            before.push(s.last())
        }
    }
}

/// The decimal texts of bytes.
pub open spec fn byte_texts(s: Seq<u8>) -> Seq<Seq<char>> {
    s.map_values(|b: u8| decimal(b as nat))
}

/// Bytes as a list: decimal, separated by commas, in square brackets.
pub open spec fn byte_list(s: Seq<u8>) -> Seq<char> {
    "["@ + joined(byte_texts(s), ", "@) + "]"@
}

/// The text of one hexadecimal digit.
fn digit_text(d: u8) -> (r: &'static str)
    requires
        d < 16,
    ensures
        r@ == seq![digit_char(d as nat)],
{
    proof {
        reveal_strlit("0");
        reveal_strlit("1");
        reveal_strlit("2");
        reveal_strlit("3");
        reveal_strlit("4");
        reveal_strlit("5");
        reveal_strlit("6");
        reveal_strlit("7");
        reveal_strlit("8");
        reveal_strlit("9");
        reveal_strlit("a");
        reveal_strlit("b");
        reveal_strlit("c");
        reveal_strlit("d");
        reveal_strlit("e");
        reveal_strlit("f");
    }
    match d {
        0 => "0",
        1 => "1",
        2 => "2",
        3 => "3",
        4 => "4",
        5 => "5",
        6 => "6",
        7 => "7",
        8 => "8",
        9 => "9",
        10 => "a",
        11 => "b",
        12 => "c",
        13 => "d",
        14 => "e",
        _ => "f",
    }
}

/// Appends `n` in decimal digits.
pub fn push_decimal(out: &mut String, n: u64)
    ensures
        final(out)@ == old(out)@ + decimal(n as nat),
    decreases n,
{
    if n >= 10 {
        push_decimal(out, n / 10);
    }
    out.append(digit_text((n % 10) as u8));
    assert(out@ =~= old(out)@ + decimal(n as nat));
}

/// Appends the last `width` hexadecimal digits of `n`.
pub fn push_hex(out: &mut String, n: u32, width: u32)
    ensures
        final(out)@ == old(out)@ + hex(n as nat, width as nat),
    decreases width,
{
    if width > 0 {
        push_hex(out, n / 16, width - 1);
        out.append(digit_text((n % 16) as u8));
    }
    assert(out@ =~= old(out)@ + hex(n as nat, width as nat));
}

/// Appends bytes as a list.
pub fn push_byte_list(out: &mut String, s: &[u8])
    ensures
        final(out)@ == old(out)@ + byte_list(s@),
{
    out.append("[");
    let ghost start = out@;
    let mut i: usize = 0;
    while i < s.len()
        invariant
            i <= s@.len(),
            out@ == start + joined(byte_texts(s@.take(i as int)), ", "@),
        decreases s@.len() - i,
    {
        let ghost before = byte_texts(s@.take(i as int));
        let ghost after = byte_texts(s@.take(i + 1));
        assert(after.drop_last() =~= before);
        assert(after.last() == decimal(s@[i as int] as nat));
        if i > 0 {
            out.append(", ");
        }
        push_decimal(out, s[i] as u64);
        i = i + 1;
        assert(out@ =~= start + joined(after, ", "@));
    }
    assert(s@.take(i as int) =~= s@);
    out.append("]");
    assert(out@ =~= old(out)@ + byte_list(s@));
}

/// Does the list hold the text?
pub fn holds(list: &Vec<String>, item: &String) -> (r: bool)
    ensures
        r == views(list@).contains(item@),
{
    let ghost all = views(list@);
    let mut i: usize = 0;
    while i < list.len()
        invariant
            i <= list@.len(),
            all == views(list@),
            forall|j: int| 0 <= j < i ==> all[j] != item@,
        decreases list@.len() - i,
    {
        if list[i] == *item {
            assert(all[i as int] == item@);
            return true;
        }
        i = i + 1;
    }
    false
}

/// Appends texts with `separator` between each two.
pub fn push_joined(out: &mut String, parts: &Vec<&'static str>, separator: &str)
    ensures
        final(out)@ == old(out)@ + joined(str_views(parts@), separator@),
{
    let ghost start = out@;
    let ghost all = str_views(parts@);
    let mut i: usize = 0;
    while i < parts.len()
        invariant
            i <= parts@.len(),
            all == str_views(parts@),
            out@ == start + joined(all.take(i as int), separator@),
        decreases parts@.len() - i,
    {
        assert(all.take(i + 1).drop_last() =~= all.take(i as int));
        if i > 0 {
            out.append(separator);
        }
        out.append(parts[i]);
        i = i + 1;
        assert(out@ =~= start + joined(all.take(i as int), separator@));
    }
    assert(all.take(i as int) =~= all);
}

/// A number has at least one digit, and more than one from ten on.
proof fn lemma_decimal_len(n: nat)
    ensures
        decimal(n).len() >= 1,
        n >= 10 ==> decimal(n).len() >= 2,
    decreases n,
{
    if n >= 10 {
        lemma_decimal_len(n / 10);
    }
}

/// Different numbers have different decimal digits.
pub proof fn lemma_decimal_injective(a: nat, b: nat)
    requires
        decimal(a) == decimal(b),
    ensures
        a == b,
    decreases a,
{
    lemma_decimal_len(a);
    lemma_decimal_len(b);
    assert(decimal(a).last() == digit_char(a % 10));
    assert(decimal(b).last() == digit_char(b % 10));
    if a >= 10 && b >= 10 {
        assert(decimal(a).drop_last() =~= decimal(a / 10));
        assert(decimal(b).drop_last() =~= decimal(b / 10));
        lemma_decimal_injective(a / 10, b / 10);
    }
}

/// Two hexadecimal digits, one after the other.
pub proof fn lemma_hex_byte(n: u8)
    ensures
        hex(n as nat, 2) == seq![digit_char(n as nat / 16), digit_char(n as nat % 16)],
{
    reveal_with_fuel(hex, 3);
    assert(hex(n as nat, 2) =~= seq![digit_char(n as nat / 16), digit_char(n as nat % 16)]);
}

/// Different bytes have different pairs of hexadecimal digits.
pub proof fn lemma_digits_injective(a: u8, b: u8)
    requires
        digit_char(a as nat / 16) == digit_char(b as nat / 16),
        digit_char(a as nat % 16) == digit_char(b as nat % 16),
    ensures
        a == b,
{
}

/// Each item of a list is in [`distinct`], and no item is in it twice.
pub proof fn lemma_distinct<A>(s: Seq<A>)
    ensures
        distinct(s).no_duplicates(),
        distinct(s).to_set() == s.to_set(),
        distinct(s).len() == s.to_set().len(),
    decreases s.len(),
{
    if s.len() == 0 {
        assert(distinct(s).to_set() =~= s.to_set());
    } else {
        let front = s.drop_last();
        let before = distinct(front);
        lemma_distinct(front);
        assert(s =~= front.push(s.last()));
        assert(s.to_set() =~= front.to_set().insert(s.last())) by {
            assert forall|x: A| s.contains(x) implies front.to_set().insert(s.last()).contains(
                x,
            ) by {
                let i = s.index_of(x);
                if i < front.len() {
                    assert(front[i] == x);
                }
            }
            assert forall|x: A| front.contains(x) implies s.contains(x) by {
                let i = front.index_of(x);
                assert(s[i] == x);
            }
            assert(s[s.len() - 1] == s.last());
        }
        if before.contains(s.last()) {
            assert(before.to_set().contains(s.last()));
            assert(front.to_set().insert(s.last()) =~= front.to_set());
        } else {
            let now = before.push(s.last());
            assert(now.to_set() =~= before.to_set().insert(s.last())) by {
                assert forall|x: A| now.contains(x) implies before.to_set().insert(
                    s.last(),
                ).contains(x) by {
                    let i = now.index_of(x);
                    if i < before.len() {
                        assert(before[i] == x);
                    }
                }
                assert forall|x: A| before.contains(x) implies now.contains(x) by {
                    let i = before.index_of(x);
                    assert(now[i] == x);
                }
                assert(now[before.len() as int] == s.last());
            }
        }
    }
    distinct(s).unique_seq_to_set();
}

/// The number that a digit stands for.
pub open spec fn digit_value(c: char) -> int {
    if '0' <= c && c <= '9' {
        c as int - '0' as int
    } else {
        c as int - 'a' as int + 10
    }
}

/// The number that digits stand for, the first of them being worth the most.
pub open spec fn value_of(digits: Seq<char>, base: int) -> int
    decreases digits.len(),
{
    if digits.len() == 0 {
        0
    } else {
        base * value_of(digits.drop_last(), base) + digit_value(digits.last())
    }
}

/// The digits are `0` to `9` and then `a` to `f`, each for its number.
pub proof fn lemma_digit_char(d: nat)
    requires
        d < 16,
    ensures
        d < 10 ==> digit_char(d) as int == '0' as int + d,
        d >= 10 ==> digit_char(d) as int == 'a' as int + d - 10,
        digit_value(digit_char(d)) == d,
{
}

/// The decimal digits of a number are digits from `0` to `9`, stand for the number, and
/// begin with no zero but for that of 0 itself.
pub proof fn lemma_decimal_value(n: nat)
    ensures
        value_of(decimal(n), 10) == n,
        decimal(n).len() > 0,
        forall|i: int| 0 <= i < decimal(n).len() ==> '0' <= #[trigger] decimal(n)[i] <= '9',
        n > 0 ==> decimal(n)[0] != '0',
        n == 0 ==> decimal(n) == seq!['0'],
    decreases n,
{
    reveal_with_fuel(value_of, 3);
    lemma_digit_char(n % 10);
    if n >= 10 {
        let front = decimal(n / 10);
        lemma_decimal_value(n / 10);
        assert(decimal(n).drop_last() =~= front);
        assert(decimal(n).last() == digit_char(n % 10));
        assert(decimal(n)[0] == front[0]);
    } else {
        assert(decimal(n).drop_last() =~= Seq::empty());
        lemma_digit_char(n);
    }
}

/// The hexadecimal digits of a number have the given width and stand for the number, where
/// it is not too high for the width.
pub proof fn lemma_hex_value(n: nat, width: nat)
    requires
        n < pow(16, width),
    ensures
        hex(n, width).len() == width,
        value_of(hex(n, width), 16) == n,
        forall|i: int|
            0 <= i < width ==> {
                let c = #[trigger] hex(n, width)[i];
                ('0' <= c <= '9') || ('a' <= c <= 'f')
            },
    decreases width,
{
    if width == 0 {
        lemma_pow0(16);
    } else {
        let less = (width - 1) as nat;
        lemma_pow_adds(16, 1, less);
        lemma_pow1(16);
        assert(n / 16 < pow(16, less));
        lemma_hex_value(n / 16, less);
        lemma_digit_char(n % 16);
        assert(hex(n, width).drop_last() =~= hex(n / 16, less));
    }
}

/// Joined texts stand in their order with the separator between each two and nowhere else.
pub proof fn lemma_joined(parts: Seq<Seq<char>>, part: Seq<char>, separator: Seq<char>)
    ensures
        joined(Seq::empty(), separator) == Seq::<char>::empty(),
        joined(parts.push(part), separator) == (if parts.len() == 0 {
            part
        } else {
            joined(parts, separator) + separator + part
        }),
{
    assert(parts.push(part).drop_last() =~= parts);
}

/// An item that is new comes last among the distinct ones, and one that is not is left out.
pub proof fn lemma_distinct_push<A>(s: Seq<A>, a: A)
    ensures
        distinct(Seq::<A>::empty()) == Seq::<A>::empty(),
        distinct(s.push(a)) == (if s.contains(a) {
            distinct(s)
        } else {
            distinct(s).push(a)
        }),
{
    lemma_distinct(s);
    assert(s.push(a).drop_last() =~= s);
    assert(s.contains(a) <==> s.to_set().contains(a));
    assert(distinct(s).contains(a) <==> distinct(s).to_set().contains(a));
}

/// A list of bytes is written in square brackets, each byte in decimal, separated by a
/// comma and a space.
pub proof fn lemma_byte_list(s: Seq<u8>, b: u8)
    ensures
        byte_list(Seq::empty()) == "["@ + "]"@,
        byte_list(seq![b]) == "["@ + decimal(b as nat) + "]"@,
        s.len() > 0 ==> byte_list(s.push(b)) == byte_list(s).drop_last() + ", "@ + decimal(b as nat)
            + "]"@,
{
    reveal_strlit("]");
    assert(byte_texts(Seq::empty()) =~= Seq::empty());
    assert(byte_list(Seq::empty()) =~= "["@ + "]"@);
    assert(byte_texts(seq![b]) =~= seq![decimal(b as nat)]);
    assert(byte_texts(s.push(b)) =~= byte_texts(s).push(decimal(b as nat)));
    lemma_joined(byte_texts(s), decimal(b as nat), ", "@);
    if s.len() > 0 {
        assert(byte_list(s).drop_last() =~= "["@ + joined(byte_texts(s), ", "@));
        assert(byte_list(s.push(b)) =~= byte_list(s).drop_last() + ", "@ + decimal(b as nat) + "]"@);
    }
}

} // verus!
