use vstd::prelude::*;

verus! {

/// The decimal digit character for `d < 10`.
pub open spec fn digit_char(d: nat) -> char {
    if d == 0 { '0' }
    else if d == 1 { '1' }
    else if d == 2 { '2' }
    else if d == 3 { '3' }
    else if d == 4 { '4' }
    else if d == 5 { '5' }
    else if d == 6 { '6' }
    else if d == 7 { '7' }
    else if d == 8 { '8' }
    else { '9' }
}

/// Decimal text of a natural number, without leading zeros.
pub open spec fn decimal(n: nat) -> Seq<char>
    decreases n,
{
    if n < 10 {
        seq![digit_char(n)]
    } else {
        decimal(n / 10).push(digit_char(n % 10))
    }
}

/// Decimal text of an integer, with a leading `-` when negative.
pub open spec fn signed_decimal(v: int) -> Seq<char> {
    if v < 0 {
        seq!['-'] + decimal((-v) as nat)
    } else {
        decimal(v as nat)
    }
}

/// Parts joined by a separator.
pub open spec fn join(parts: Seq<Seq<char>>, sep: Seq<char>) -> Seq<char>
    decreases parts.len(),
{
    if parts.len() == 0 {
        Seq::empty()
    } else if parts.len() == 1 {
        parts[0]
    } else {
        join(parts.drop_last(), sep) + sep + parts.last()
    }
}

pub open spec fn usize_parts(values: Seq<usize>) -> Seq<Seq<char>> {
    values.map_values(|v: usize| decimal(v as nat))
}

pub open spec fn i64_parts(values: Seq<i64>) -> Seq<Seq<char>> {
    values.map_values(|v: i64| signed_decimal(v as int))
}

fn digit_str(d: u64) -> (s: &'static str)
    requires
        d < 10,
    ensures
        s@ == seq![digit_char(d as nat)],
{
    proof {
        reveal_strlit("0");
        reveal_strlit("1");
        reveal_strlit("2");
        reveal_strlit("3");
        reveal_strlit("4");
        reveal_strlit("5");
        reveal_strlit("6");
        reveal_strlit("7");
        reveal_strlit("8");
        reveal_strlit("9");
    }
    if d == 0 { "0" }
    else if d == 1 { "1" }
    else if d == 2 { "2" }
    else if d == 3 { "3" }
    else if d == 4 { "4" }
    else if d == 5 { "5" }
    else if d == 6 { "6" }
    else if d == 7 { "7" }
    else if d == 8 { "8" }
    else { "9" }
}

/// Decimal text of an unsigned integer.
pub fn u64_to_decimal(n: u64) -> (s: String)
    ensures
        s@ == decimal(n as nat),
    decreases n,
{
    if n < 10 {
        String::from_str(digit_str(n))
    } else {
        let mut s = u64_to_decimal(n / 10);
        s.append(digit_str(n % 10));
        s
    }
}

pub fn usize_to_decimal(n: usize) -> (s: String)
    ensures
        s@ == decimal(n as nat),
{
    u64_to_decimal(n as u64)
}

/// Decimal text of a signed integer, as `i64`'s `Display` writes it.
pub fn i64_to_decimal(v: i64) -> (s: String)
    ensures
        s@ == signed_decimal(v as int),
{
    if v < 0 {
        let magnitude: u64 = (0i128 - (v as i128)) as u64;
        let digits = u64_to_decimal(magnitude);
        let mut s = String::from_str("-");
        proof {
            reveal_strlit("-");
        }
        s.append(digits.as_str());
        s
    } else {
        u64_to_decimal(v as u64)
    }
}

/// The list `values` in decimal, separated by `sep`.
pub fn join_usize(values: &[usize], sep: &str) -> (s: String)
    ensures
        s@ == join(usize_parts(values@), sep@),
{
    let mut s = String::new();
    let ghost parts = usize_parts(values@);
    let mut i: usize = 0;
    while i < values.len()
        invariant
            i <= values.len(),
            parts == usize_parts(values@),
            s@ == join(parts.take(i as int), sep@),
        decreases values.len() - i,
    {
        let digits = usize_to_decimal(values[i]);
        if i > 0 {
            s.append(sep);
        }
        s.append(digits.as_str());
        proof {
            assert(parts.take(i + 1).drop_last() =~= parts.take(i as int));
            if i == 0 {
                assert(parts.take(1) =~= seq![parts[0]]);
            }
        }
        i = i + 1;
    }
    proof {
        assert(parts.take(values.len() as int) =~= parts);
    }
    s
}

/// The list `values` in decimal, separated by `sep`.
pub fn join_i64(values: &[i64], sep: &str) -> (s: String)
    ensures
        s@ == join(i64_parts(values@), sep@),
{
    let mut s = String::new();
    let ghost parts = i64_parts(values@);
    let mut i: usize = 0;
    while i < values.len()
        invariant
            i <= values.len(),
            parts == i64_parts(values@),
            s@ == join(parts.take(i as int), sep@),
        decreases values.len() - i,
    {
        let digits = i64_to_decimal(values[i]);
        if i > 0 {
            s.append(sep);
        }
        s.append(digits.as_str());
        proof {
            assert(parts.take(i + 1).drop_last() =~= parts.take(i as int));
            if i == 0 {
                assert(parts.take(1) =~= seq![parts[0]]);
            }
        }
        i = i + 1;
    }
    proof {
        assert(parts.take(values.len() as int) =~= parts);
    }
    s
}


/// A shape written as a bracketed, comma-separated list: `[2, 3]`.
pub open spec fn spec_format_usize_dims(dims: Seq<usize>) -> Seq<char> {
    "["@ + join(usize_parts(dims), ", "@) + "]"@
}

pub open spec fn spec_format_i64_dims(dims: Seq<i64>) -> Seq<char> {
    "["@ + join(i64_parts(dims), ", "@) + "]"@
}

/// The shape `dims` as `[d1, d2, ...]`.
pub fn format_usize_dims(dims: &[usize]) -> (s: String)
    ensures
        s@ == spec_format_usize_dims(dims@),
{
    let mut s = String::from_str("[");
    let body = join_usize(dims, ", ");
    s.append(body.as_str());
    s.append("]");
    s
}

/// The shape `dims` as `[d1, d2, ...]`.
pub fn format_i64_dims(dims: &[i64]) -> (s: String)
    ensures
        s@ == spec_format_i64_dims(dims@),
{
    let mut s = String::from_str("[");
    let body = join_i64(dims, ", ");
    s.append(body.as_str());
    s.append("]");
    s
}


/// The characters of a string slice.
pub fn chars_of(s: &str) -> (v: Vec<char>)
    ensures
        v@ == s@,
{
    broadcast use vstd::string::group_string_axioms;

    let mut v: Vec<char> = Vec::new();
    for c in it: s.chars()
        invariant
            it.seq() == s@,
            v@ == s@.take(it.index() as int),
            v@.len() == it.index(),
    {
        proof {
            assert(it.seq().take(it.index() + 1) =~= it.seq().take(it.index() as int).push(c));
        }
        v.push(c);
    }
    v
}

} // verus!
