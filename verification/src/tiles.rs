use vstd::prelude::*;
use vstd::string::StrSliceExecFns;
use vstd::arithmetic::power::pow;

verus! {

/// The pieces of `s` between its commas (as `str::split(',')` gives them).
pub open spec fn split_commas(s: Seq<char>) -> Seq<Seq<char>>
    decreases s.len(),
{
    if s.len() == 0 {
        seq![Seq::empty()]
    } else {
        let r = split_commas(s.drop_last());
        let c = s.last();
        if c == ',' {
            r.push(Seq::empty())
        } else {
            r.update(r.len() - 1, r.last().push(c))
        }
    }
}

pub open spec fn is_digit(c: char) -> bool {
    '0' <= c <= '9'
}

pub open spec fn digit_value(c: char) -> int {
    (c as int) - ('0' as int)
}

/// The number that a sequence of decimal digits spells.
pub open spec fn digits_value(d: Seq<char>) -> int
    decreases d.len(),
{
    if d.len() == 0 {
        0
    } else {
        digits_value(d.drop_last()) * 10 + digit_value(d.last())
    }
}

pub open spec fn all_digits(d: Seq<char>) -> bool {
    forall|i: int| 0 <= i < d.len() ==> is_digit(#[trigger] d[i])
}

/// Which integer, if any, a piece of text spells as `str::parse::<i32>` reads it:
/// an optional `+` or `-`, then at least one decimal digit, within the range of `i32`.
pub open spec fn parse_i32(t: Seq<char>) -> Option<i32> {
    let negative = t.len() > 0 && t[0] == '-';
    let signed = t.len() > 0 && (t[0] == '-' || t[0] == '+');
    let d = if signed { t.skip(1) } else { t };
    let v = if negative { -digits_value(d) } else { digits_value(d) };
    if d.len() > 0 && all_digits(d) && i32::MIN <= v <= i32::MAX {
        Some(v as i32)
    } else {
        None
    }
}

/// The integers that the pieces spell, in order, skipping the pieces that spell none.
pub open spec fn parsed_values(pieces: Seq<Seq<char>>) -> Seq<i32>
    decreases pieces.len(),
{
    if pieces.len() == 0 {
        Seq::empty()
    } else {
        let r = parsed_values(pieces.drop_last());
        match parse_i32(pieces.last()) {
            Some(v) => r.push(v),
            None => r,
        }
    }
}

/// At most the first three elements of `s`.
pub open spec fn first_three(s: Seq<i32>) -> Seq<i32> {
    if s.len() <= 3 {
        s
    } else {
        s.take(3)
    }
}

proof fn lemma_digits_value_grows(d: Seq<char>, k: int)
    requires
        all_digits(d),
        0 <= k <= d.len(),
    ensures
        0 <= digits_value(d.take(k)) <= digits_value(d),
    decreases d.len(),
{
    if d.len() > 0 {
        assert forall|i: int| 0 <= i < d.drop_last().len() implies is_digit(#[trigger] d.drop_last()[i]) by {
            assert(d.drop_last()[i] == d[i]);
        }
        if k == d.len() {
            assert(d.take(k) =~= d);
            lemma_digits_value_grows(d.drop_last(), 0);
            assert(is_digit(d[d.len() - 1]));
        } else {
            lemma_digits_value_grows(d.drop_last(), k);
            assert(d.drop_last().take(k) =~= d.take(k));
            assert(is_digit(d[d.len() - 1]));
        }
    } else {
        assert(d.take(k) =~= d);
    }
}

/// The text's characters.
fn chars_of(s: &str) -> (v: Vec<char>)
    ensures
        v@ == s@,
{
    let n = s.unicode_len();
    let mut v: Vec<char> = Vec::new();
    let mut i: usize = 0;
    while i < n
        invariant
            n == s@.len(),
            0 <= i <= n,
            v@ == s@.take(i as int),
        decreases n - i,
    {
        v.push(s.get_char(i));
        proof {
            assert(s@.take(i + 1) =~= s@.take(i as int).push(s@[i as int]));
        }
        i = i + 1;
    }
    proof {
        assert(s@.take(n as int) =~= s@);
    }
    v
}

/// Reads a piece of text as `str::parse::<i32>` does.
pub fn parse_i32_piece(t: &Vec<char>) -> (r: Option<i32>)
    ensures
        r == parse_i32(t@),
{
    let n = t.len();
    if n == 0 {
        return None;
    }
    let negative = t[0] == '-';
    let signed = negative || t[0] == '+';
    let start: usize = if signed { 1 } else { 0 };
    let ghost d = if signed { t@.skip(1) } else { t@ };
    if start >= n {
        return None;
    }
    let limit: i64 = if negative { 2147483648 } else { 2147483647 };
    let mut acc: i64 = 0;
    let mut i: usize = start;
    while i < n
        invariant
            n == t@.len(),
            start <= i <= n,
            start == (if signed { 1int } else { 0int }),
            n > 0,
            negative == (t@[0] == '-'),
            signed == (negative || t@[0] == '+'),
            d == (if signed { t@.skip(1) } else { t@ }),
            d =~= t@.skip(start as int),
            limit == (if negative { 2147483648int } else { 2147483647int }),
            all_digits(d.take(i - start)),
            acc == digits_value(d.take(i - start)),
            0 <= acc <= limit,
        decreases n - i,
    {
        let c = t[i];
        proof {
            assert(d.take(i - start + 1).drop_last() =~= d.take(i - start));
            assert(d.take(i - start + 1).last() == c);
        }
        if !('0' <= c && c <= '9') {
            proof {
                assert(d[i - start] == c);
                assert(!is_digit(d[i - start]));
                assert(!all_digits(d));
            }
            return None;
        }
        let digit = (c as u32 - '0' as u32) as i64;
        if acc > (limit - digit) / 10 {
            proof {
                assert(is_digit(d.take(i - start + 1).last()));
                assert(all_digits(d.take(i - start + 1)));
                assert(digits_value(d.take(i - start + 1)) == acc * 10 + digit);
                assert(acc * 10 + digit > limit);
                if all_digits(d) {
                    lemma_digits_value_grows(d, i - start + 1);
                    assert(digits_value(d) > limit);
                }
            }
            return None;
        }
        acc = acc * 10 + digit;
        proof {
            assert(all_digits(d.take(i - start + 1)));
        }
        i = i + 1;
    }
    proof {
        assert(d.take(n - start) =~= d);
    }
    if negative {
        Some((-acc) as i32)
    } else {
        Some(acc as i32)
    }
}

/// The first three integers among the comma separated pieces of `s`, as a tile
/// given as `"x,y,z"` is read.
pub fn parse_tile(s: &str) -> (out: Vec<i32>)
    ensures
        out@ == first_three(parsed_values(split_commas(s@))),
{
    let chars = chars_of(s);
    let n = chars.len();
    let mut values: Vec<i32> = Vec::new();
    let mut piece: Vec<char> = Vec::new();
    let mut i: usize = 0;
    proof {
        assert(chars@.take(0) =~= Seq::<char>::empty());
        assert(split_commas(chars@.take(0)) =~= seq![Seq::<char>::empty()]);
        assert(split_commas(chars@.take(0)).drop_last() =~= Seq::<Seq<char>>::empty());
    }
    while i < n
        invariant
            n == chars@.len(),
            0 <= i <= n,
            split_commas(chars@.take(i as int)).len() > 0,
            piece@ == split_commas(chars@.take(i as int)).last(),
            values@ == parsed_values(split_commas(chars@.take(i as int)).drop_last()),
        decreases n - i,
    {
        let c = chars[i];
        let ghost r = split_commas(chars@.take(i as int));
        proof {
            assert(chars@.take(i + 1).drop_last() =~= chars@.take(i as int));
            assert(chars@.take(i + 1).last() == c);
        }
        if c == ',' {
            proof {
                assert(split_commas(chars@.take(i + 1)).drop_last() =~= r);
                assert(r.drop_last().push(r.last()) =~= r);
            }
            match parse_i32_piece(&piece) {
                Some(v) => values.push(v),
                None => {},
            }
            piece = Vec::new();
        } else {
            piece.push(c);
            proof {
                assert(split_commas(chars@.take(i + 1)).drop_last() =~= r.drop_last());
            }
        }
        i = i + 1;
    }
    proof {
        assert(chars@.take(n as int) =~= chars@);
        let r = split_commas(chars@);
        assert(r.drop_last().push(r.last()) =~= r);
    }
    match parse_i32_piece(&piece) {
        Some(v) => values.push(v),
        None => {},
    }
    let mut out: Vec<i32> = Vec::new();
    let mut k: usize = 0;
    while k < values.len() && k < 3
        invariant
            0 <= k <= values@.len(),
            k <= 3,
            out@ =~= values@.take(k as int),
        decreases values@.len() - k,
    {
        out.push(values[k]);
        k = k + 1;
    }
    out
}

/// `2` to the power of `d`.
pub open spec fn two_pow(d: nat) -> int
    decreases d,
{
    if d == 0 {
        1
    } else {
        2 * two_pow((d - 1) as nat)
    }
}

proof fn lemma_two_pow_grows(a: nat, b: nat)
    requires
        a <= b,
    ensures
        1 <= two_pow(a) <= two_pow(b),
    decreases b,
{
    if b > 0 {
        if a < b {
            lemma_two_pow_grows(a, (b - 1) as nat);
        } else {
            lemma_two_pow_grows((a - 1) as nat, (b - 1) as nat);
        }
    }
}

proof fn lemma_two_pow_bounds(d: nat)
    ensures
        1 <= two_pow(d),
        d <= 30 ==> two_pow(d) <= 1073741824,
{
    lemma_two_pow_grows(0, d);
    if d <= 30 {
        lemma_two_pow_grows(d, 30);
        reveal_with_fuel(two_pow, 31);
    }
}

/// `2_i32.pow(d)`, for the exponents where it does not overflow.
fn pow2_i32(d: u32) -> (p: i32)
    requires
        d <= 30,
    ensures
        p == two_pow(d as nat),
{
    let mut p: i32 = 1;
    let mut k: u32 = 0;
    while k < d
        invariant
            k <= d <= 30,
            p == two_pow(k as nat),
        decreases d - k,
    {
        proof {
            lemma_two_pow_bounds((k + 1) as nat);
        }
        p = p * 2;
        k = k + 1;
    }
    p
}

/// A tile `[x, y, z]` seen at the finer zoom `level`: the first cell of the tile there.
pub open spec fn scaled_start(tile: Seq<i32>, level: i32) -> Seq<int> {
    let p = two_pow((level - tile[2]) as nat);
    seq![tile[0] * p, tile[1] * p, level as int]
}

/// A tile `[x, y, z]` seen at the finer zoom `level`: the last cell of the tile there.
pub open spec fn scaled_end(tile: Seq<i32>, level: i32) -> Seq<int> {
    let p = two_pow((level - tile[2]) as nat);
    seq![(tile[0] + 1) * p - 1, (tile[1] + 1) * p - 1, level as int]
}

/// The first cell of the tile at `level` can be computed within the range of `i32`.
pub open spec fn start_fits(tile: Seq<i32>, level: i32) -> bool {
    &&& tile.len() == 3
    &&& 0 <= level - tile[2] <= 30
    &&& i32::MIN <= tile[0] * two_pow((level - tile[2]) as nat) <= i32::MAX
    &&& i32::MIN <= tile[1] * two_pow((level - tile[2]) as nat) <= i32::MAX
}

/// The last cell of the tile at `level` can be computed within the range of `i32`.
pub open spec fn end_fits(tile: Seq<i32>, level: i32) -> bool {
    &&& tile.len() == 3
    &&& 0 <= level - tile[2] <= 30
    &&& tile[0] < i32::MAX
    &&& tile[1] < i32::MAX
    &&& i32::MIN < (tile[0] + 1) * two_pow((level - tile[2]) as nat) <= i32::MAX
    &&& i32::MIN < (tile[1] + 1) * two_pow((level - tile[2]) as nat) <= i32::MAX
}

/// The first cell at zoom `level` of the tile `[x, y, z]`.
pub fn scale_tile_start(tile: &Vec<i32>, level: i32) -> (out: Vec<i32>)
    requires
        start_fits(tile@, level),
    ensures
        out@.len() == 3,
        forall|i: int| 0 <= i < 3 ==> out@[i] as int == #[trigger] scaled_start(tile@, level)[i],
{
    let mut t = tile.clone();
    let diff = level - t[2];
    let p = pow2_i32(diff as u32);
    proof {
        lemma_two_pow_bounds(diff as nat);
    }
    let x = t[0] * p;
    let y = t[1] * p;
    t.set(0, x);
    t.set(1, y);
    t.set(2, level);
    t
}

/// The last cell at zoom `level` of the tile `[x, y, z]`.
pub fn scale_tile_end(tile: &Vec<i32>, level: i32) -> (out: Vec<i32>)
    requires
        end_fits(tile@, level),
    ensures
        out@.len() == 3,
        forall|i: int| 0 <= i < 3 ==> out@[i] as int == #[trigger] scaled_end(tile@, level)[i],
{
    let mut t = tile.clone();
    let diff = level - t[2];
    let p = pow2_i32(diff as u32);
    proof {
        lemma_two_pow_bounds(diff as nat);
    }
    let x = (t[0] + 1) * p - 1;
    let y = (t[1] + 1) * p - 1;
    t.set(0, x);
    t.set(1, y);
    t.set(2, level);
    t
}

proof fn lemma_between_multiples(x: int, c: int, p: int)
    by (nonlinear_arith)
    requires
        p > 0,
    ensures
        (x * p <= c <= (x + 1) * p - 1) <==> c / p == x,
{
}

/// The cells from a tile's first cell to its last cell at a finer zoom are
/// exactly the cells that lie in the tile: a column `c` is in the range exactly
/// when `c / 2^(level - z)` is the tile's column, and likewise for rows.
pub proof fn lemma_scaled_range_is_tile(tile: Seq<i32>, level: i32, c: int, r: int)
    requires
        tile.len() == 3,
        0 <= level - tile[2],
    ensures
        ({
            let p = two_pow((level - tile[2]) as nat);
            &&& (scaled_start(tile, level)[0] <= c <= scaled_end(tile, level)[0]) <==> c / p == tile[0]
            &&& (scaled_start(tile, level)[1] <= r <= scaled_end(tile, level)[1]) <==> r / p == tile[1]
        }),
{
    let p = two_pow((level - tile[2]) as nat);
    lemma_two_pow_bounds((level - tile[2]) as nat);
    lemma_between_multiples(tile[0] as int, c, p);
    lemma_between_multiples(tile[1] as int, r, p);
}

/// `two_pow` is the power of two: it doubles with each level, and it is
/// vstd's `pow(2, d)`.
pub proof fn lemma_two_pow_is_power_of_two(d: nat)
    ensures
        two_pow(d + 1) == 2 * two_pow(d),
        two_pow(d) == pow(2, d),
    decreases d,
{
    reveal(pow);
    if d > 0 {
        lemma_two_pow_is_power_of_two((d - 1) as nat);
    }
}

/// A tile seen at a finer zoom level starts at its coordinates times
/// `2^(level - z)` and ends one cell before the next tile's coordinates times
/// `2^(level - z)`.
pub proof fn lemma_scaled_tile_by_power_of_two(tile: Seq<i32>, level: i32)
    requires
        tile.len() == 3,
        tile[2] <= level,
    ensures
        ({
            let p = pow(2, (level - tile[2]) as nat);
            &&& scaled_start(tile, level) == seq![tile[0] * p, tile[1] * p, level as int]
            &&& scaled_end(tile, level) == seq![(tile[0] + 1) * p - 1, (tile[1] + 1) * p - 1, level as int]
        }),
{
    lemma_two_pow_is_power_of_two((level - tile[2]) as nat);
}

/// Each decimal digit `'0'..='9'` on its own reads as its value.
pub proof fn lemma_single_digit_parses(c: char)
    requires
        48 <= c as u32 <= 57,
    ensures
        parse_i32(seq![c]) == Some((c as u32 - 48) as i32),
{
    let t = seq![c];
    assert(t.drop_last() =~= Seq::<char>::empty());
    assert(('0' as int) == 48 && ('9' as int) == 57 && ('-' as int) == 45 && ('+' as int) == 43);
    assert(c as int == c as u32 as int);
    assert(is_digit(c));
    assert(all_digits(t));
    assert(t.last() == c);
    assert(digits_value(t.drop_last()) == 0);
    assert(digits_value(t) == digit_value(c));
}

/// A single character that is no decimal digit reads as no number.
pub proof fn lemma_single_non_digit_fails(c: char)
    requires
        !(48 <= c as u32 <= 57),
    ensures
        parse_i32(seq![c]) is None,
{
    let t = seq![c];
    if c != '-' && c != '+' {
        assert(!is_digit(t[0]));
    } else {
        assert(t.skip(1).len() == 0);
    }
}

/// Appending a decimal digit to a number written with digits only multiplies
/// its value by ten and adds the digit, as long as the result fits in `i32`.
pub proof fn lemma_append_digit(t: Seq<char>, c: char, v: i32)
    requires
        t.len() > 0,
        48 <= t[0] as u32 <= 57,
        parse_i32(t) == Some(v),
        48 <= c as u32 <= 57,
        10 * v + (c as u32 - 48) <= i32::MAX,
    ensures
        parse_i32(t.push(c)) == Some((10 * v + (c as u32 - 48)) as i32),
{
    let u = t.push(c);
    assert(('0' as int) == 48 && ('9' as int) == 57 && ('-' as int) == 45 && ('+' as int) == 43);
    assert(c as int == c as u32 as int);
    assert(t[0] as int == t[0] as u32 as int);
    assert(is_digit(c));
    assert(u.drop_last() =~= t);
    assert(u[0] == t[0]);
    assert(all_digits(t));
    assert forall|i: int| 0 <= i < u.len() implies is_digit(#[trigger] u[i]) by {
        if i < t.len() {
            assert(u[i] == t[i]);
        }
    }
    assert(u.last() == c);
    assert(digits_value(u) == digits_value(t) * 10 + digit_value(c));
    lemma_digits_value_grows(t, 0);
    assert(digits_value(t) == v);
}

/// A minus sign in front of a number written with digits only negates it.
pub proof fn lemma_minus_negates(t: Seq<char>, v: i32)
    requires
        t.len() > 0,
        48 <= t[0] as u32 <= 57,
        parse_i32(t) == Some(v),
    ensures
        parse_i32(seq!['-'] + t) == Some((-v) as i32),
{
    let u = seq!['-'] + t;
    assert(u[0] == '-');
    assert(u.skip(1) =~= t);
    assert(all_digits(t));
    lemma_digits_value_grows(t, 0);
    assert(t.take(0) =~= Seq::<char>::empty());
}

/// The pieces written one after the other with a comma between each two.
pub open spec fn join_commas(pieces: Seq<Seq<char>>) -> Seq<char>
    decreases pieces.len(),
{
    if pieces.len() == 0 {
        Seq::empty()
    } else if pieces.len() == 1 {
        pieces[0]
    } else {
        join_commas(pieces.drop_last()) + seq![','] + pieces.last()
    }
}

/// Splitting at the commas loses nothing and keeps no comma: there is at least
/// one piece, no piece holds a comma, and joining the pieces with commas gives
/// back the text.
pub proof fn lemma_split_commas_joins_back(s: Seq<char>)
    ensures
        split_commas(s).len() >= 1,
        forall|i: int| 0 <= i < split_commas(s).len() ==> !(#[trigger] split_commas(s)[i]).contains(','),
        join_commas(split_commas(s)) == s,
    decreases s.len(),
{
    if s.len() == 0 {
        assert(join_commas(split_commas(s)) =~= s);
        assert forall|i: int| 0 <= i < split_commas(s).len() implies !(#[trigger] split_commas(s)[i]).contains(',') by {
            assert(split_commas(s)[i] =~= Seq::<char>::empty());
        }
    } else {
        let d = s.drop_last();
        let c = s.last();
        lemma_split_commas_joins_back(d);
        let r = split_commas(d);
        let out = split_commas(s);
        assert(s =~= d.push(c));
        if c == ',' {
            assert(out == r.push(Seq::<char>::empty()));
            assert(out.drop_last() =~= r);
            assert(join_commas(out) =~= s);
            assert forall|i: int| 0 <= i < out.len() implies !(#[trigger] out[i]).contains(',') by {
                if i < r.len() {
                    assert(out[i] == r[i]);
                } else {
                    assert(out[i] =~= Seq::<char>::empty());
                }
            }
        } else {
            let last = r.last().push(c);
            assert(out == r.update(r.len() - 1, last));
            assert forall|i: int| 0 <= i < out.len() implies !(#[trigger] out[i]).contains(',') by {
                if i < r.len() - 1 {
                    assert(out[i] == r[i]);
                } else {
                    assert(out[i] == last);
                    assert(!r[r.len() - 1].contains(','));
                    if last.contains(',') {
                        let k = choose|k: int| 0 <= k < last.len() && last[k] == ',';
                        if k < last.len() - 1 {
                            assert(last[k] == r.last()[k]);
                        }
                    }
                }
            }
            if r.len() == 1 {
                assert(join_commas(out) == out[0]);
                assert(join_commas(r) == r[0]);
                assert(join_commas(out) =~= s);
            } else {
                assert(out.drop_last() =~= r.drop_last());
                assert(join_commas(out) == join_commas(r.drop_last()) + seq![','] + last);
                assert(join_commas(r) == join_commas(r.drop_last()) + seq![','] + r.last());
                assert(join_commas(out) =~= s);
            }
        }
    }
}

} // verus!
