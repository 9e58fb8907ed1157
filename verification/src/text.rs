//! Building text whose every character the contracts account for.

use vstd::prelude::*;
use vstd::string::*;

verus! {

/// The text of one decimal digit.
pub open spec fn digit_text(d: nat) -> Seq<char> {
    if d == 0 {
        "0"@
    } else if d == 1 {
        "1"@
    } else if d == 2 {
        "2"@
    } else if d == 3 {
        "3"@
    } else if d == 4 {
        "4"@
    } else if d == 5 {
        "5"@
    } else if d == 6 {
        "6"@
    } else if d == 7 {
        "7"@
    } else if d == 8 {
        "8"@
    } else {
        "9"@
    }
}

/// A number in decimal, without leading zeros.
pub open spec fn decimal(n: nat) -> Seq<char>
    decreases n,
{
    if n < 10 {
        digit_text(n)
    } else {
        decimal(n / 10) + digit_text(n % 10)
    }
}

proof fn lemma_digit(d: nat)
    requires
        d < 10,
    ensures
        digit_text(d) == seq![('0' as u32 + d) as char],
{
    reveal_strlit("0");
    reveal_strlit("1");
    reveal_strlit("2");
    reveal_strlit("3");
    reveal_strlit("4");
    reveal_strlit("5");
    reveal_strlit("6");
    reveal_strlit("7");
    reveal_strlit("8");
    reveal_strlit("9");
    assert(digit_text(d) =~= seq![('0' as u32 + d) as char]);
}

/// **A number in decimal is made of digits.**
pub proof fn decimal_is_digits(n: nat)
    ensures
        decimal(n).len() > 0,
        forall|i: int| 0 <= i < decimal(n).len() ==> '0' <= #[trigger] decimal(n)[i] <= '9',
    decreases n,
{
    if n < 10 {
        lemma_digit(n);
    } else {
        let first = decimal(n / 10);
        decimal_is_digits(n / 10);
        lemma_digit(n % 10);
        assert forall|i: int| 0 <= i < decimal(n).len() implies '0' <= #[trigger] decimal(n)[i]
            <= '9' by {
            if i < first.len() {
                assert(decimal(n)[i] == first[i]);
            }
        }
    }
}

/// **Two numbers that look the same in decimal are the same.**
pub proof fn decimal_tells_apart(a: nat, b: nat)
    requires
        decimal(a) == decimal(b),
    ensures
        a == b,
    decreases a,
{
    lemma_digit(a % 10);
    lemma_digit(b % 10);
    assert(decimal(a).last() == ('0' as u32 + a % 10) as char) by {
        if a < 10 {
            assert(a % 10 == a);
        }
    }
    assert(decimal(b).last() == ('0' as u32 + b % 10) as char) by {
        if b < 10 {
            assert(b % 10 == b);
        }
    }
    if a >= 10 {
        decimal_is_digits(a / 10);
        assert(decimal(a).drop_last() =~= decimal(a / 10));
    } else {
        assert(a % 10 == a);
    }
    if b >= 10 {
        decimal_is_digits(b / 10);
        assert(decimal(b).drop_last() =~= decimal(b / 10));
    } else {
        assert(b % 10 == b);
    }
    if a >= 10 && b >= 10 {
        decimal_tells_apart(a / 10, b / 10);
    }
}

/// The number that some digits stand for, read from the left.
pub open spec fn read_number(digits: Seq<char>) -> int
    decreases digits.len(),
{
    if digits.len() == 0 {
        0
    } else {
        10 * read_number(digits.drop_last()) + (digits.last() as u32 - '0' as u32)
    }
}

/// **A number in decimal reads back as the number**, and has no leading zero.
pub proof fn decimal_reads_back(n: nat)
    ensures
        read_number(decimal(n)) == n,
        n >= 10 ==> decimal(n)[0] != '0',
    decreases n,
{
    decimal_is_digits(n);
    if n < 10 {
        lemma_digit(n);
        reveal_with_fuel(read_number, 2);
        assert(decimal(n).drop_last() =~= Seq::<char>::empty());
    } else {
        decimal_reads_back(n / 10);
        lemma_digit(n % 10);
        decimal_is_digits(n / 10);
        assert(decimal(n).drop_last() =~= decimal(n / 10));
        if n / 10 < 10 {
            lemma_digit(n / 10);
        }
    }
}

/// `text`, preceded by as many spaces as it takes to reach `width` characters.
pub open spec fn right_aligned(text: Seq<char>, width: nat) -> Seq<char>
    decreases width - text.len(),
{
    if text.len() < width {
        right_aligned(seq![' '] + text, width)
    } else {
        text
    }
}

/// **Aligned text is padded on the left, and no more than it takes.** It is at least as wide as the
/// field, wider only if the text is, and ends with the text; everything before that is spaces.
pub proof fn alignment_only_pads(text: Seq<char>, width: nat)
    ensures
        ({
            let out = right_aligned(text, width);
            let pad = out.len() - text.len();
            &&& out.len() == (if text.len() < width {
                width
            } else {
                text.len()
            })
            &&& out.skip(pad) == text
            &&& forall|i: int| 0 <= i < pad ==> #[trigger] out[i] == ' '
        }),
    decreases width - text.len(),
{
    let out = right_aligned(text, width);
    if text.len() < width {
        let wider = seq![' '] + text;
        alignment_only_pads(wider, width);
        let pad = out.len() - wider.len();
        assert(out.skip(pad + 1) =~= wider.skip(1)) by {
            assert(out.skip(pad) == wider);
            assert forall|i: int| 0 <= i < text.len() implies out.skip(pad + 1)[i]
                == wider.skip(1)[i] by {
                assert(out.skip(pad)[i + 1] == wider[i + 1]);
            }
        }
        assert(wider.skip(1) =~= text);
        assert(out[pad] == out.skip(pad)[0]);
    } else {
        assert(out.skip(0) =~= out);
    }
}

/// What the standard library's `Debug` formatting of a string gives: the string between double
/// quotes, with the characters escaped that it escapes.
pub uninterp spec fn str_debug(s: Seq<char>) -> Seq<char>;

/// `s` in the quoted, escaped form of the standard library's `Debug`: calls the `Debug`
/// formatting of `str`. What is claimed is only that the text it gives depends on nothing but the
/// characters of `s`.
#[verifier::external_body]
pub(crate) fn quoted(s: &str) -> (out: String)
    ensures
        out@ == str_debug(s@),
{
    format!("{:?}", s)
}

fn digit_str(d: u64) -> (out: String)
    requires
        d < 10,
    ensures
        out@ == digit_text(d as nat),
{
    let s: &str = if d == 0 {
        "0"
    } else if d == 1 {
        "1"
    } else if d == 2 {
        "2"
    } else if d == 3 {
        "3"
    } else if d == 4 {
        "4"
    } else if d == 5 {
        "5"
    } else if d == 6 {
        "6"
    } else if d == 7 {
        "7"
    } else if d == 8 {
        "8"
    } else {
        "9"
    };
    s.to_owned()
}

/// The decimal form of `n`.
pub fn decimal_string(n: u64) -> (out: String)
    ensures
        out@ == decimal(n as nat),
    decreases n,
{
    if n < 10 {
        digit_str(n)
    } else {
        let mut s = decimal_string(n / 10);
        let d = digit_str(n % 10);
        s.append(d.as_str());
        s
    }
}

/// `text`, right-aligned in a field of `width` characters.
pub fn align_right(text: String, width: usize) -> (out: String)
    ensures
        out@ == right_aligned(text@, width as nat),
{
    let mut out = text;
    let mut len: usize = out.as_str().unicode_len();
    while len < width
        invariant
            len == out@.len(),
            right_aligned(out@, width as nat) == right_aligned(text@, width as nat),
        decreases width - len,
    {
        let mut wider = " ".to_owned();
        proof {
            reveal_strlit(" ");
            assert(" "@ =~= seq![' ']);
        }
        wider.append(out.as_str());
        out = wider;
        len = len + 1;
    }
    out
}

} // verus!
