use vstd::prelude::*;

verus! {

/// Number of decimal digits of `n`, as `n.to_string()` writes it.
pub open spec fn digits(n: nat) -> nat
    decreases n,
{
    if n < 10 {
        1
    } else {
        1 + digits(n / 10)
    }
}

/// The character of the decimal digit `d`.
pub open spec fn digit_char(d: nat) -> char {
    if d == 0 {
        '0'
    } else if d == 1 {
        '1'
    } else if d == 2 {
        '2'
    } else if d == 3 {
        '3'
    } else if d == 4 {
        '4'
    } else if d == 5 {
        '5'
    } else if d == 6 {
        '6'
    } else if d == 7 {
        '7'
    } else if d == 8 {
        '8'
    } else {
        '9'
    }
}

/// `n` in decimal, without leading zeros.
pub open spec fn decimal(n: nat) -> Seq<char>
    decreases n,
{
    if n < 10 {
        seq![digit_char(n)]
    } else {
        decimal(n / 10).push(digit_char(n % 10))
    }
}

/// `n` in decimal, with zeros in front up to `width` characters.
pub open spec fn zero_padded(n: nat, width: nat) -> Seq<char> {
    let pad: nat = if width > digits(n) {
        (width - digits(n)) as nat
    } else {
        0
    };
    Seq::new(pad, |_i: int| '0') + decimal(n)
}

/// The name of the copy with the given index: `{base}_v{index:0width}.{extension}`.
pub open spec fn file_name_of(base: Seq<char>, index: nat, width: nat, extension: Seq<char>) -> Seq<
    char,
> {
    base + seq!['_', 'v'] + zero_padded(index, width) + seq!['.'] + extension
}

/// The value of a string of decimal digits.
spec fn digit_value(c: char) -> nat {
    if c == '1' {
        1
    } else if c == '2' {
        2
    } else if c == '3' {
        3
    } else if c == '4' {
        4
    } else if c == '5' {
        5
    } else if c == '6' {
        6
    } else if c == '7' {
        7
    } else if c == '8' {
        8
    } else if c == '9' {
        9
    } else {
        0
    }
}

spec fn value_of(s: Seq<char>) -> nat
    decreases s.len(),
{
    if s.len() == 0 {
        0
    } else {
        value_of(s.drop_last()) * 10 + digit_value(s.last())
    }
}

proof fn lemma_decimal(n: nat)
    ensures
        decimal(n).len() == digits(n),
        value_of(decimal(n)) == n,
    decreases n,
{
    assert(digit_value(digit_char(n % 10)) == n % 10);
    if n >= 10 {
        lemma_decimal(n / 10);
        assert(decimal(n).drop_last() =~= decimal(n / 10));
        assert((n / 10) * 10 + n % 10 == n);
    } else {
        assert(decimal(n).drop_last() =~= Seq::<char>::empty());
        assert(value_of(Seq::<char>::empty()) == 0);
    }
    assert(decimal(n).last() == digit_char(n % 10));
    assert(value_of(decimal(n)) == value_of(decimal(n).drop_last()) * 10 + digit_value(
        decimal(n).last(),
    ));
}

proof fn lemma_leading_zeros(k: nat, s: Seq<char>)
    ensures
        value_of(Seq::new(k, |_i: int| '0') + s) == value_of(s),
    decreases s.len(), k,
{
    let z = Seq::new(k, |_i: int| '0');
    if s.len() == 0 {
        assert(z + s =~= z);
        if k > 0 {
            lemma_leading_zeros((k - 1) as nat, s);
            assert(z.drop_last() =~= Seq::new((k - 1) as nat, |_i: int| '0') + s);
        }
    } else {
        lemma_leading_zeros(k, s.drop_last());
        assert((z + s).drop_last() =~= z + s.drop_last());
    }
}

proof fn lemma_zero_padded_value(n: nat, width: nat)
    ensures
        value_of(zero_padded(n, width)) == n,
{
    lemma_decimal(n);
    let pad: nat = if width > digits(n) {
        (width - digits(n)) as nat
    } else {
        0
    };
    lemma_leading_zeros(pad, decimal(n));
}

/// Copies with different indices get different names, whatever the base
/// name, the extension and the width.
pub proof fn lemma_names_distinct(
    base: Seq<char>,
    extension: Seq<char>,
    width: nat,
    i: nat,
    j: nat,
)
    requires
        i != j,
    ensures
        file_name_of(base, i, width, extension) != file_name_of(base, j, width, extension),
{
    let a = file_name_of(base, i, width, extension);
    let b = file_name_of(base, j, width, extension);
    let pa = zero_padded(i, width);
    let pb = zero_padded(j, width);
    lemma_zero_padded_value(i, width);
    lemma_zero_padded_value(j, width);
    if a == b {
        let start: int = base.len() as int + 2;
        assert(a.len() == base.len() + 3 + pa.len() + extension.len());
        assert(b.len() == base.len() + 3 + pb.len() + extension.len());
        assert(pa.len() == pb.len());
        assert(a.subrange(start, start + pa.len()) =~= pa);
        assert(b.subrange(start, start + pb.len()) =~= pb);
    }
}

proof fn lemma_digits_bounded(n: nat)
    ensures
        1 <= digits(n) <= n + 1,
    decreases n,
{
    if n >= 10 {
        lemma_digits_bounded(n / 10);
    }
}

/// The number of decimal digits of `n`, which is the width that the names
/// of a batch of copies are padded to.
pub fn decimal_width(n: usize) -> (r: usize)
    ensures
        r == digits(n as nat),
    decreases n,
{
    if n < 10 {
        1
    } else {
        proof {
            lemma_digits_bounded(n as nat / 10);
        }
        1 + decimal_width(n / 10)
    }
}

fn digit_str(d: usize) -> (r: &'static str)
    requires
        d < 10,
    ensures
        r@ == seq![digit_char(d as nat)],
{
    if d == 0 {
        proof {
            reveal_strlit("0");
        }
        "0"

    } else if d == 1 {
        proof {
            reveal_strlit("1");
        }
        "1"

    } else if d == 2 {
        proof {
            reveal_strlit("2");
        }
        "2"

    } else if d == 3 {
        proof {
            reveal_strlit("3");
        }
        "3"

    } else if d == 4 {
        proof {
            reveal_strlit("4");
        }
        "4"

    } else if d == 5 {
        proof {
            reveal_strlit("5");
        }
        "5"

    } else if d == 6 {
        proof {
            reveal_strlit("6");
        }
        "6"

    } else if d == 7 {
        proof {
            reveal_strlit("7");
        }
        "7"

    } else if d == 8 {
        proof {
            reveal_strlit("8");
        }
        "8"
    } else {
        proof {
            reveal_strlit("9");
        }
        "9"
    }
}

fn append_decimal(s: &mut String, n: usize)
    ensures
        final(s)@ == old(s)@ + decimal(n as nat),
    decreases n,
{
    if n >= 10 {
        append_decimal(s, n / 10);
    }
    s.append(digit_str(n % 10));
    proof {
        if n < 10 {
            assert(decimal(n as nat) =~= seq![digit_char(n as nat % 10)]);
        }
    }
    assert(final(s)@ =~= old(s)@ + decimal(n as nat));
}

/// The name of the copy with the given index, `{base}_v{index:0width}.{extension}`:
/// the index in decimal, with zeros in front up to `width` digits.
pub fn file_name(base: &str, index: usize, width: usize, extension: &str) -> (r: String)
    ensures
        r@ == file_name_of(base@, index as nat, width as nat, extension@),
{
    let mut r = String::from_str(base);
    proof {
        reveal_strlit("_v");
        reveal_strlit("0");
        reveal_strlit(".");
    }
    r.append("_v");
    let ghost prefix = r@;
    let digits_len = decimal_width(index);
    let mut k: usize = digits_len;
    while k < width
        invariant
            digits_len <= k <= width || (k == digits_len && width <= digits_len),
            r@ == prefix + Seq::new((k - digits_len) as nat, |_i: int| '0'),
        decreases width - k,
    {
        proof {
            reveal_strlit("0");
        }
        r.append("0");
        k += 1;
        assert(r@ =~= prefix + Seq::new((k - digits_len) as nat, |_i: int| '0'));
    }
    append_decimal(&mut r, index);
    r.append(".");
    r.append(extension);
    assert(r@ =~= file_name_of(base@, index as nat, width as nat, extension@));
    r
}

} // verus!
