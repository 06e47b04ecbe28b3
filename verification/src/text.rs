//! Text that is put together from parts.

use vstd::prelude::*;
use vstd::string::*;

verus! {

/// The texts of a list of strings.
pub open spec fn texts(strings: Seq<String>) -> Seq<Seq<char>> {
    strings.map_values(|s: String| s@)
}

/// The character of a decimal digit.
pub open spec fn digit(d: nat) -> char {
    if d == 0 {
        '0'
    } else if d == 1 {
        '1'
    } else if d == 2 {
        '2'
    } else if d == 3 {
        '3'
    } else if d == 4 {
        '4'
    } else if d == 5 {
        '5'
    } else if d == 6 {
        '6'
    } else if d == 7 {
        '7'
    } else if d == 8 {
        '8'
    } else {
        '9'
    }
}

/// The decimal digits of `n`, without leading zeros.
pub open spec fn decimal_text(n: nat) -> Seq<char>
    decreases n,
{
    if n < 10 {
        seq![digit(n)]
    } else {
        decimal_text(n / 10).push(digit(n % 10))
    }
}

/// Whether `a` stands before `b` where texts are sorted: by their first different characters, or
/// the shorter one first. The bytes of the texts are in the same order.
pub open spec fn stands_before(a: Seq<char>, b: Seq<char>) -> bool
    decreases a.len(),
{
    if b.len() == 0 {
        false
    } else if a.len() == 0 {
        true
    } else if a[0] != b[0] {
        (a[0] as u32) < (b[0] as u32)
    } else {
        stands_before(a.skip(1), b.skip(1))
    }
}

/// How two texts are sorted.
#[derive(Clone, Copy, Debug, PartialEq, Eq, Structural)]
pub enum Place {
    Before,
    Same,
    After,
}

/// How `a` is sorted against `b`.
pub fn place(a: &str, b: &str) -> (p: Place)
    ensures
        match p {
            Place::Before => stands_before(a@, b@),
            Place::Same => a@ == b@,
            Place::After => stands_before(b@, a@),
        },
{
    let (m, n): (usize, usize) = (a.unicode_len(), b.unicode_len());
    let mut i: usize = 0;
    proof {
        assert(a@.skip(0) =~= a@);
        assert(b@.skip(0) =~= b@);
    }
    while i < m && i < n
        invariant
            m == a@.len(),
            n == b@.len(),
            i <= m,
            i <= n,
            forall|j: int| 0 <= j < i ==> #[trigger] a@[j] == b@[j],
            stands_before(a@, b@) == stands_before(a@.skip(i as int), b@.skip(i as int)),
            stands_before(b@, a@) == stands_before(b@.skip(i as int), a@.skip(i as int)),
        decreases m - i,
    {
        let (x, y): (char, char) = (a.get_char(i), b.get_char(i));
        if (x as u32) < (y as u32) {
            return Place::Before;
        }
        if (y as u32) < (x as u32) {
            return Place::After;
        }
        proof {
            assert(a@.skip(i as int).skip(1) =~= a@.skip(i + 1));
            assert(b@.skip(i as int).skip(1) =~= b@.skip(i + 1));
        }
        i = i + 1;
    }
    if m < n {
        Place::Before
    } else if n < m {
        Place::After
    } else {
        assert(a@ =~= b@);
        Place::Same
    }
}

/// No text stands before itself, or before one that stands before it; and what stands before a
/// text stands before all that it stands before.
pub proof fn sorting_is_an_order(a: Seq<char>, b: Seq<char>, c: Seq<char>)
    ensures
        !stands_before(a, a),
        !(stands_before(a, b) && stands_before(b, a)),
        stands_before(a, b) && stands_before(b, c) ==> stands_before(a, c),
    decreases a.len(),
{
    if a.len() > 0 {
        let (x, y, z) = (a.skip(1), b.skip(1), c.skip(1));
        if b.len() > 0 && c.len() > 0 {
            sorting_is_an_order(x, y, z);
        } else if b.len() > 0 {
            sorting_is_an_order(x, y, x);
        } else {
            sorting_is_an_order(x, x, x);
        }
    }
}

pub(crate) proof fn lemma_join(a: Seq<char>, b: Seq<char>, c: Seq<char>)
    ensures
        a + b + c == a + (b + c),
{
    assert(a + b + c =~= a + (b + c));
}

fn digit_text(d: u64) -> (text: &'static str)
    requires
        d < 10,
    ensures
        text@ == seq![digit(d as nat)],
{
    proof {
        reveal_strlit("0");
        reveal_strlit("1");
        reveal_strlit("2");
        reveal_strlit("3");
        reveal_strlit("4");
        reveal_strlit("5");
        reveal_strlit("6");
        reveal_strlit("7");
        reveal_strlit("8");
        reveal_strlit("9");
    }
    match d {
        0 => "0",
        1 => "1",
        2 => "2",
        3 => "3",
        4 => "4",
        5 => "5",
        6 => "6",
        7 => "7",
        8 => "8",
        _ => "9",
    }
}

/// `n` in decimal.
pub fn decimal(n: u64) -> (text: String)
    ensures
        text@ == decimal_text(n as nat),
    decreases n,
{
    if n < 10 {
        digit_text(n).to_owned()
    } else {
        let mut text: String = decimal(n / 10);
        text.append(digit_text(n % 10));
        text
    }
}

/// The number that decimal digits stand for.
pub open spec fn value_of(text: Seq<char>) -> int
    decreases text.len(),
{
    if text.len() == 0 {
        0
    } else {
        value_of(text.drop_last()) * 10 + (text.last() as u32 - '0' as u32)
    }
}

/// The decimal form of a number reads back as that number. It has digits alone, and no leading
/// zero.
pub proof fn decimal_reads_back(n: nat)
    ensures
        value_of(decimal_text(n)) == n,
        decimal_text(n).len() > 0,
        decimal_text(n)[0] == '0' ==> n == 0,
        forall|i: int|
            0 <= i < decimal_text(n).len() ==> '0' as u32 <= (
            #[trigger] decimal_text(n)[i]) as u32 <= '9' as u32,
    decreases n,
{
    let text = decimal_text(n);
    if n < 10 {
        assert(text.drop_last() =~= Seq::empty());
        assert(text.last() == digit(n));
        assert(value_of(text.drop_last()) == 0);
    } else {
        decimal_reads_back(n / 10);
        assert(text.drop_last() =~= decimal_text(n / 10));
        assert(text.last() == digit(n % 10));
        assert(text[0] == decimal_text(n / 10)[0]);
    }
}

/// Whether two texts are alike up to a place, and there the first one ends or has the lower
/// character.
pub open spec fn differs_at(a: Seq<char>, b: Seq<char>, i: int) -> bool {
    &&& 0 <= i <= a.len()
    &&& i < b.len()
    &&& forall|j: int| 0 <= j < i ==> #[trigger] a[j] == b[j]
    &&& i < a.len() ==> (a[i] as u32) < (b[i] as u32)
}

/// Two texts are sorted by the first place at which they differ.
pub proof fn the_first_difference_decides(a: &str, b: &str, p: Place)
    requires
        call_ensures(place, (a, b), p),
    ensures
        p is Before ==> exists|i: int| #[trigger] differs_at(a@, b@, i),
        p is After ==> exists|i: int| #[trigger] differs_at(b@, a@, i),
        p is Same ==> a@ == b@,
{
    if p is Before {
        lemma_differs(a@, b@);
    } else if p is After {
        lemma_differs(b@, a@);
    }
}

pub(crate) proof fn lemma_differs(a: Seq<char>, b: Seq<char>)
    requires
        stands_before(a, b),
    ensures
        exists|i: int| #[trigger] differs_at(a, b, i),
    decreases a.len(),
{
    if a.len() == 0 || a[0] != b[0] {
        assert(differs_at(a, b, 0));
    } else {
        let (x, y) = (a.skip(1), b.skip(1));
        lemma_differs(x, y);
        let m = choose|i: int| #[trigger] differs_at(x, y, i);
        let i = m + 1;
        assert forall|j: int| 0 <= j < i implies #[trigger] a[j] == b[j] by {
            if j > 0 {
                assert(x[j - 1] == y[j - 1]);
            }
        }
        assert(i < a.len() ==> a[i] == x[m]);
        assert(b[i] == y[m]);
        assert(differs_at(a, b, i));
    }
}

} // verus!
