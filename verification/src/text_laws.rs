//! What the operations on text are, said of single characters.

use vstd::prelude::*;

use crate::pointer::digits_value;
use crate::text::{after_last, decimal, digit, joined, occurs_in, text_lt};

verus! {

/// A text stands before another exactly if, behind what they have in common at their front, it is
/// at its end and the other is not, or goes on with a lower character.
pub proof fn law_texts_are_in_the_order_of_their_characters(a: Seq<char>, b: Seq<char>)
    ensures
        text_lt(a, b) <==> exists|k: int|
            {
                &&& 0 <= k <= a.len()
                &&& k < b.len()
                &&& #[trigger] a.take(k) == b.take(k)
                &&& k == a.len() || (a[k] as u32) < (b[k] as u32)
            },
    decreases a.len(),
{
    if b.len() > 0 && a.len() > 0 && a[0] == b[0] {
        let x = a.drop_first();
        let y = b.drop_first();
        law_texts_are_in_the_order_of_their_characters(x, y);
        if text_lt(x, y) {
            let k = choose|k: int|
                {
                    &&& 0 <= k <= x.len()
                    &&& k < y.len()
                    &&& #[trigger] x.take(k) == y.take(k)
                    &&& k == x.len() || (x[k] as u32) < (y[k] as u32)
                };
            assert(a.take(k + 1) =~= seq![a[0]] + x.take(k));
            assert(b.take(k + 1) =~= seq![b[0]] + y.take(k));
            assert(a.take(k + 1) == b.take(k + 1));
        }
        if exists|k: int|
            {
                &&& 0 <= k <= a.len()
                &&& k < b.len()
                &&& #[trigger] a.take(k) == b.take(k)
                &&& k == a.len() || (a[k] as u32) < (b[k] as u32)
            } {
            let k = choose|k: int|
                {
                    &&& 0 <= k <= a.len()
                    &&& k < b.len()
                    &&& #[trigger] a.take(k) == b.take(k)
                    &&& k == a.len() || (a[k] as u32) < (b[k] as u32)
                };
            assert(k > 0);
            assert(x.take(k - 1) =~= a.take(k).drop_first());
            assert(y.take(k - 1) =~= b.take(k).drop_first());
            assert(x.take(k - 1) == y.take(k - 1));
        }
    } else {
        if text_lt(a, b) {
            assert(a.take(0) =~= b.take(0));
        } else if exists|k: int|
            {
                &&& 0 <= k <= a.len()
                &&& k < b.len()
                &&& #[trigger] a.take(k) == b.take(k)
                &&& k == a.len() || (a[k] as u32) < (b[k] as u32)
            } {
            let k = choose|k: int|
                {
                    &&& 0 <= k <= a.len()
                    &&& k < b.len()
                    &&& #[trigger] a.take(k) == b.take(k)
                    &&& k == a.len() || (a[k] as u32) < (b[k] as u32)
                };
            if k > 0 {
                assert(a.take(k)[0] == b.take(k)[0]);
            }
        }
    }
}

/// A number is written in digits that stand for it, without needless zeros in front.
pub proof fn law_numbers_are_written_in_decimal(n: nat)
    ensures
        digits_value(decimal(n)) == n,
        decimal(n).len() > 0,
        forall|i: int|
            0 <= i < decimal(n).len() ==> '0' as u32 <= #[trigger] decimal(n)[i] as u32 <= '9' as u32,
        decimal(n)[0] == '0' ==> n == 0,
    decreases n,
{
    let d = decimal(n);
    if n < 10 {
        assert(d.drop_last() =~= Seq::empty());
        reveal_with_fuel(digits_value, 2);
        assert(digit(n) as u32 == n + '0' as u32);
    } else {
        law_numbers_are_written_in_decimal(n / 10);
        assert(d.drop_last() =~= decimal(n / 10));
        assert(d.last() == digit(n % 10));
        assert(digit(n % 10) as u32 == n % 10 + '0' as u32);
        assert(d[0] == decimal(n / 10)[0]);
        assert forall|i: int| 0 <= i < d.len() implies '0' as u32 <= #[trigger] d[i] as u32
            <= '9' as u32 by {
            if i < d.len() - 1 {
                assert(d[i] == decimal(n / 10)[i]);
            }
        }
    }
}

/// Texts in a row: none give none, one gives itself, and one more at the end comes behind a
/// separator.
pub proof fn law_texts_are_joined_with_separators(
    parts: Seq<Seq<char>>,
    part: Seq<char>,
    separator: Seq<char>,
)
    ensures
        joined(Seq::empty(), separator) == Seq::<char>::empty(),
        joined(seq![part], separator) == part,
        parts.len() > 0 ==> joined(parts.push(part), separator) == joined(parts, separator)
            + separator + part,
{
    if parts.len() > 0 {
        assert(parts.push(part).drop_last() =~= parts);
    }
}

/// A text occurs in another exactly if that is made of it with something in front and behind.
pub proof fn law_occurring_is_standing_inside(needle: Seq<char>, hay: Seq<char>)
    ensures
        occurs_in(needle, hay) <==> exists|front: Seq<char>, back: Seq<char>|
            hay == #[trigger] (front + needle + back),
{
    if occurs_in(needle, hay) {
        let i = choose|i: int|
            0 <= i <= hay.len() - needle.len() && #[trigger] hay.subrange(i, i + needle.len())
                == needle;
        let front = hay.take(i);
        let back = hay.skip(i + needle.len());
        assert(hay =~= front + needle + back);
    }
    if exists|front: Seq<char>, back: Seq<char>| hay == #[trigger] (front + needle + back) {
        let (front, back) = choose|front: Seq<char>, back: Seq<char>|
            hay == #[trigger] (front + needle + back);
        let i = front.len() as int;
        assert(hay.subrange(i, i + needle.len()) =~= needle);
    }
}

/// The text behind the last of a character is what follows it without another.
pub proof fn law_text_behind_the_last(front: Seq<char>, c: char, name: Seq<char>)
    requires
        !name.contains(c),
    ensures
        after_last(front.push(c) + name, c) == name,
        after_last(name, c) == name,
    decreases name.len(),
{
    let whole = front.push(c) + name;
    if name.len() == 0 {
        assert(whole.last() == c);
        assert(name =~= Seq::empty());
    } else {
        let shorter = name.drop_last();
        assert forall|i: int| 0 <= i < shorter.len() implies #[trigger] shorter[i] != c by {
            assert(name[i] == shorter[i]);
        }
        law_text_behind_the_last(front, c, shorter);
        assert(name[name.len() - 1] != c);
        assert(whole.drop_last() =~= front.push(c) + shorter);
        assert(shorter.push(name.last()) =~= name);
    }
}

} // verus!
