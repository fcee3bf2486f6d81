//! Building text: decimal numbers, padding, and joined pieces.
use vstd::prelude::*;
use vstd::string::*;

verus! {

/// The character of a decimal digit.
pub open spec fn digit_char(d: int) -> char {
    (48 + d) as char
}

/// A number in decimal digits, without leading zeros.
pub open spec fn decimal_spec(n: nat) -> Seq<char>
    decreases n,
{
    if n < 10 {
        seq![digit_char(n as int)]
    } else {
        decimal_spec(n / 10).push(digit_char((n % 10) as int))
    }
}

/// `count` blanks.
pub open spec fn blanks(count: int) -> Seq<char> {
    Seq::new(
        if count > 0 {
            count as nat
        } else {
            0
        },
        |i: int| ' ',
    )
}

/// `text` behind as many blanks as it takes to fill `width`.
pub open spec fn pad_left(text: Seq<char>, width: int) -> Seq<char> {
    blanks(width - text.len()) + text
}

fn digit_text(d: u8) -> (res: &'static str)
    requires
        d < 10,
    ensures
        res@ == seq![digit_char(d as int)],
{
    proof {
        reveal_strlit("0");
        reveal_strlit("1");
        reveal_strlit("2");
        reveal_strlit("3");
        reveal_strlit("4");
        reveal_strlit("5");
        reveal_strlit("6");
        reveal_strlit("7");
        reveal_strlit("8");
        reveal_strlit("9");
    }
    let res = match d {
        0 => "0",
        1 => "1",
        2 => "2",
        3 => "3",
        4 => "4",
        5 => "5",
        6 => "6",
        7 => "7",
        8 => "8",
        _ => "9",
    };
    assert(res@ =~= seq![digit_char(d as int)]);
    res
}

/// The number in decimal digits.
pub fn decimal(n: u64) -> (res: String)
    ensures
        res@ == decimal_spec(n as nat),
    decreases n,
{
    if n < 10 {
        digit_text(n as u8).to_owned()
    } else {
        let mut res = decimal(n / 10);
        res.append(digit_text((n % 10) as u8));
        assert(res@ =~= decimal_spec(n as nat));
        res
    }
}

/// `text` set to the right in a column of `width` characters.
pub fn right_aligned(text: &str, width: usize) -> (res: String)
    ensures
        res@ == pad_left(text@, width as int),
{
    proof {
        reveal_strlit(" ");
    }
    let len: usize = text.unicode_len();
    let mut res = String::new();
    let mut i: usize = len;
    while i < width
        invariant
            len == text@.len(),
            len <= i,
            i <= width || i == len,
            res@ =~= blanks(i - len),
            " "@ =~= seq![' '],
        decreases width - i,
    {
        res.append(" ");
        i = i + 1;
    }
    res.append(text);
    res
}

/// Two pieces of text in one.
pub fn joined(front: &str, back: &str) -> (res: String)
    ensures
        res@ == front@ + back@,
{
    let mut res = front.to_owned();
    res.append(back);
    res
}

// ---------------------------------------------------------------------------
// Laws
// ---------------------------------------------------------------------------

/// The number that a row of decimal digits stands for.
pub open spec fn digits_value(text: Seq<char>) -> int
    decreases text.len(),
{
    if text.len() == 0 {
        0
    } else {
        10 * digits_value(text.drop_last()) + (text.last() as int - 48)
    }
}

/// Whether the text is the number in decimal: it reads back as that number, it is made of
/// digits alone, and it has no zeros in front.
pub open spec fn writes_out(text: Seq<char>, n: int) -> bool {
    &&& digits_value(text) == n
    &&& text.len() > 0
    &&& forall|i: int| 0 <= i < text.len() ==> '0' <= #[trigger] text[i] <= '9'
    &&& text.len() > 1 ==> text[0] != '0'
}

/// A number in decimal reads back as that number.
pub proof fn law_decimal_reads_back(n: nat)
    ensures
        writes_out(decimal_spec(n), n as int),
        n > 0 ==> decimal_spec(n)[0] != '0',
    decreases n,
{
    reveal_with_fuel(digits_value, 2);
    let text = decimal_spec(n);
    if n < 10 {
        assert(text.drop_last() =~= Seq::<char>::empty());
        assert(text.last() as int == 48 + n);
    } else {
        law_decimal_reads_back(n / 10);
        assert(text.drop_last() =~= decimal_spec(n / 10));
        assert(text.last() as int == 48 + n % 10);
        assert(text[0] == decimal_spec(n / 10)[0]);
        assert forall|i: int| 0 <= i < text.len() implies '0' <= #[trigger] text[i] <= '9' by {
            if i < text.len() - 1 {
                assert(text[i] == decimal_spec(n / 10)[i]);
            }
        }
    }
}

/// A column is as wide as it should be, or as its text; the text stands at its right end, and
/// only blanks stand in front.
pub proof fn law_column_holds_its_text(text: Seq<char>, width: int)
    ensures
        pad_left(text, width).len() >= width,
        pad_left(text, width).len() == width || pad_left(text, width) == text,
        pad_left(text, width).skip(pad_left(text, width).len() - text.len()) == text,
        forall|i: int|
            0 <= i < pad_left(text, width).len() - text.len() ==> #[trigger] pad_left(
                text,
                width,
            )[i] == ' ',
{
    let column = pad_left(text, width);
    assert(column.skip(column.len() - text.len()) =~= text);
    if width <= text.len() {
        assert(column =~= text);
    }
}

} // verus!
