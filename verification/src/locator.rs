use vstd::prelude::*;
use vstd::string::*;
use crate::error::CoordinatorError;

verus! {

pub open spec fn is_digit(c: char) -> bool {
    c == '0' || c == '1' || c == '2' || c == '3' || c == '4' || c == '5' || c == '6' || c == '7'
        || c == '8' || c == '9'
}

pub open spec fn digit_char(d: int) -> char {
    if d == 0 {
        '0'
    } else if d == 1 {
        '1'
    } else if d == 2 {
        '2'
    } else if d == 3 {
        '3'
    } else if d == 4 {
        '4'
    } else if d == 5 {
        '5'
    } else if d == 6 {
        '6'
    } else if d == 7 {
        '7'
    } else if d == 8 {
        '8'
    } else {
        '9'
    }
}

pub open spec fn digit_value(c: char) -> int {
    if c == '1' {
        1
    } else if c == '2' {
        2
    } else if c == '3' {
        3
    } else if c == '4' {
        4
    } else if c == '5' {
        5
    } else if c == '6' {
        6
    } else if c == '7' {
        7
    } else if c == '8' {
        8
    } else if c == '9' {
        9
    } else {
        0
    }
}

/// The value of a digit character, or nothing for another character.
fn digit_of(c: char) -> (r: Option<u32>)
    ensures
        r is Some <==> is_digit(c),
        r matches Some(d) ==> d == digit_value(c),
{
    match c {
        '0' => Some(0),
        '1' => Some(1),
        '2' => Some(2),
        '3' => Some(3),
        '4' => Some(4),
        '5' => Some(5),
        '6' => Some(6),
        '7' => Some(7),
        '8' => Some(8),
        '9' => Some(9),
        _ => None,
    }
}

/// The decimal notation of `v`, without leading zeros.
pub open spec fn decimal(v: nat) -> Seq<char>
    decreases v,
{
    if v < 10 {
        seq![digit_char(v as int)]
    } else {
        decimal(v / 10).push(digit_char((v % 10) as int))
    }
}

/// The number that a string of digits denotes.
pub open spec fn digits_value(s: Seq<char>) -> nat
    decreases s.len(),
{
    if s.len() == 0 {
        0
    } else {
        (digits_value(s.drop_last()) * 10 + digit_value(s.last())) as nat
    }
}

pub open spec fn all_digits(s: Seq<char>) -> bool {
    forall|i: int| 0 <= i < s.len() ==> is_digit(#[trigger] s[i])
}

pub open spec fn pow10(k: nat) -> nat
    decreases k,
{
    if k == 0 {
        1
    } else {
        10 * pow10((k - 1) as nat)
    }
}

pub open spec fn round_prefix() -> Seq<char> {
    "round_"@
}

pub open spec fn chunk_infix() -> Seq<char> {
    "/chunk_"@
}

pub open spec fn contribution_infix() -> Seq<char> {
    "/contribution_"@
}

pub open spec fn verified_suffix() -> Seq<char> {
    ".verified"@
}

pub open spec fn unverified_suffix() -> Seq<char> {
    ".unverified"@
}

/// The text of the locator of the file that holds contribution `contribution` to chunk
/// `chunk` in round `height`, in its verified or unverified form.
pub open spec fn locator_text(height: u64, chunk: u64, contribution: u64, verified: bool) -> Seq<
    char,
> {
    round_prefix() + decimal(height as nat) + chunk_infix() + decimal(chunk as nat)
        + contribution_infix() + decimal(contribution as nat) + (if verified {
        verified_suffix()
    } else {
        unverified_suffix()
    })
}

proof fn lemma_literals()
    ensures
        round_prefix() == seq!['r', 'o', 'u', 'n', 'd', '_'],
        chunk_infix() == seq!['/', 'c', 'h', 'u', 'n', 'k', '_'],
        contribution_infix() == seq![
            '/',
            'c',
            'o',
            'n',
            't',
            'r',
            'i',
            'b',
            'u',
            't',
            'i',
            'o',
            'n',
            '_',
        ],
        verified_suffix() == seq!['.', 'v', 'e', 'r', 'i', 'f', 'i', 'e', 'd'],
        unverified_suffix() == seq!['.', 'u', 'n', 'v', 'e', 'r', 'i', 'f', 'i', 'e', 'd'],
{
    reveal_strlit("round_");
    reveal_strlit("/chunk_");
    reveal_strlit("/contribution_");
    reveal_strlit(".verified");
    reveal_strlit(".unverified");
    assert(round_prefix() =~= seq!['r', 'o', 'u', 'n', 'd', '_']);
    assert(chunk_infix() =~= seq!['/', 'c', 'h', 'u', 'n', 'k', '_']);
    assert(contribution_infix() =~= seq![
        '/',
        'c',
        'o',
        'n',
        't',
        'r',
        'i',
        'b',
        'u',
        't',
        'i',
        'o',
        'n',
        '_',
    ]);
    assert(verified_suffix() =~= seq!['.', 'v', 'e', 'r', 'i', 'f', 'i', 'e', 'd']);
    assert(unverified_suffix() =~= seq!['.', 'u', 'n', 'v', 'e', 'r', 'i', 'f', 'i', 'e', 'd']);
}

proof fn lemma_digit_char(d: int)
    requires
        0 <= d < 10,
    ensures
        is_digit(digit_char(d)),
        digit_value(digit_char(d)) == d,
        digit_char(d) == '0' <==> d == 0,
{
}

proof fn lemma_decimal(v: nat)
    ensures
        decimal(v).len() >= 1,
        all_digits(decimal(v)),
        decimal(v).len() == 1 || decimal(v)[0] != '0',
        digits_value(decimal(v)) == v,
        v < pow10(decimal(v).len() as nat),
        v < 10 ==> decimal(v).len() == 1,
        v >= 10 ==> decimal(v).len() >= 2 && pow10((decimal(v).len() - 1) as nat) <= v,
    decreases v,
{
    let s = decimal(v);
    if v < 10 {
        lemma_digit_char(v as int);
        assert(s.drop_last() =~= Seq::<char>::empty());
        assert(digits_value(s.drop_last()) == 0);
        assert(s.last() == digit_char(v as int));
        reveal_with_fuel(pow10, 2);
    } else {
        lemma_decimal(v / 10);
        lemma_digit_char((v % 10) as int);
        let d = decimal(v / 10);
        assert(s.drop_last() =~= d);
        assert(s.last() == digit_char((v % 10) as int));
        assert(s[0] == d[0]);
        if v / 10 < 10 {
            assert(d[0] == digit_char((v / 10) as int));
            lemma_digit_char((v / 10) as int);
            reveal_with_fuel(pow10, 2);
        } else {
            assert(pow10(d.len() as nat) == 10 * pow10((d.len() - 1) as nat));
            assert(pow10(d.len() as nat) <= v) by (nonlinear_arith)
                requires
                    pow10((d.len() - 1) as nat) <= v / 10,
                    pow10(d.len() as nat) == 10 * pow10((d.len() - 1) as nat),
            ;
        }
        assert(pow10(s.len() as nat) == 10 * pow10(d.len() as nat));
        assert(v < pow10(s.len() as nat)) by (nonlinear_arith)
            requires
                v / 10 < pow10(d.len() as nat),
                pow10(s.len() as nat) == 10 * pow10(d.len() as nat),
        ;
        assert(all_digits(s)) by {
            assert forall|i: int| 0 <= i < s.len() implies is_digit(#[trigger] s[i]) by {
                if i < d.len() {
                    assert(s[i] == d[i]);
                }
            }
        }
    }
}

proof fn lemma_pow10_20()
    ensures
        pow10(20) == 100000000000000000000nat,
{
    reveal_with_fuel(pow10, 21);
}

proof fn lemma_pow10_monotone(a: nat, b: nat)
    requires
        a <= b,
    ensures
        pow10(a) <= pow10(b),
    decreases b,
{
    if a < b {
        lemma_pow10_monotone(a, (b - 1) as nat);
    }
}

/// The decimal notation of a `u64` has at most 20 digits.
proof fn lemma_decimal_len_u64(v: u64)
    ensures
        decimal(v as nat).len() <= 20,
{
    lemma_decimal(v as nat);
    lemma_pow10_20();
    if decimal(v as nat).len() > 20 {
        lemma_pow10_monotone(20, (decimal(v as nat).len() - 1) as nat);
        assert(false);
    }
}

proof fn lemma_digit_roundtrip(c: char)
    requires
        is_digit(c),
    ensures
        digit_char(digit_value(c)) == c,
        0 <= digit_value(c) < 10,
{
}

proof fn lemma_digits_value_bound(s: Seq<char>)
    requires
        all_digits(s),
    ensures
        digits_value(s) < pow10(s.len() as nat),
    decreases s.len(),
{
    if s.len() > 0 {
        lemma_digits_value_bound(s.drop_last());
    }
}

proof fn lemma_digits_value_positive(s: Seq<char>)
    requires
        all_digits(s),
        s.len() >= 1,
        s[0] != '0',
    ensures
        digits_value(s) >= 1,
    decreases s.len(),
{
    if s.len() > 1 {
        assert(s.drop_last()[0] == s[0]);
        lemma_digits_value_positive(s.drop_last());
    }
}

/// A string of digits without leading zero is the decimal notation of its value.
proof fn lemma_canonical_digits(s: Seq<char>)
    requires
        all_digits(s),
        s.len() >= 1,
        s.len() == 1 || s[0] != '0',
    ensures
        decimal(digits_value(s)) == s,
    decreases s.len(),
{
    assert(is_digit(s[s.len() - 1]));
    lemma_digit_roundtrip(s.last());
    if s.len() == 1 {
        assert(s.drop_last() =~= Seq::<char>::empty());
        assert(digits_value(s.drop_last()) == 0);
        assert(digits_value(s) == digit_value(s[0]));
        assert(decimal(digits_value(s)) =~= s);
    } else {
        let r = s.drop_last();
        assert(r[0] == s[0]);
        lemma_canonical_digits(r);
        lemma_digits_value_positive(r);
        let v = digits_value(s);
        assert(v / 10 == digits_value(r) && v % 10 == digit_value(s.last())) by (nonlinear_arith)
            requires
                v == digits_value(r) * 10 + digit_value(s.last()),
                0 <= digit_value(s.last()) < 10,
        ;
        assert(decimal(v) =~= s);
    }
}

/// A digit run that starts at `pos` and ends at the end of the text or before a non-digit.
pub open spec fn digit_run_ends_at(s: Seq<char>, pos: int, end: int) -> bool {
    &&& 0 <= pos <= end <= s.len()
    &&& all_digits(s.subrange(pos, end))
    &&& (end == s.len() || !is_digit(s[end]))
}

proof fn lemma_digit_run_unique(s: Seq<char>, pos: int, e1: int, e2: int)
    requires
        digit_run_ends_at(s, pos, e1),
        digit_run_ends_at(s, pos, e2),
    ensures
        e1 == e2,
{
    if e1 < e2 {
        assert(is_digit(s.subrange(pos, e2)[e1 - pos]));
    }
    if e2 < e1 {
        assert(is_digit(s.subrange(pos, e1)[e2 - pos]));
    }
}

/// Where the parts of a locator text stand.
proof fn lemma_text_structure(h: u64, c: u64, k: u64, v: bool)
    ensures
        ({
            let s = locator_text(h, c, k, v);
            let e1: int = 6int + decimal(h as nat).len();
            let e2: int = e1 + 7 + decimal(c as nat).len();
            let e3: int = e2 + 14 + decimal(k as nat).len();
            let suffix = if v {
                verified_suffix()
            } else {
                unverified_suffix()
            };
            &&& s.len() >= 6
            &&& s.subrange(0, 6) == round_prefix()
            &&& digit_run_ends_at(s, 6, e1)
            &&& s.subrange(6, e1) == decimal(h as nat)
            &&& e1 + 7 <= s.len()
            &&& s.subrange(e1, e1 + 7) == chunk_infix()
            &&& digit_run_ends_at(s, e1 + 7, e2)
            &&& s.subrange(e1 + 7, e2) == decimal(c as nat)
            &&& e2 + 14 <= s.len()
            &&& s.subrange(e2, e2 + 14) == contribution_infix()
            &&& digit_run_ends_at(s, e2 + 14, e3)
            &&& s.subrange(e2 + 14, e3) == decimal(k as nat)
            &&& s.len() == e3 + suffix.len()
            &&& s.subrange(e3, s.len() as int) == suffix
        }),
{
    lemma_literals();
    lemma_decimal(h as nat);
    lemma_decimal(c as nat);
    lemma_decimal(k as nat);
    let s = locator_text(h, c, k, v);
    let dh = decimal(h as nat);
    let dc = decimal(c as nat);
    let dk = decimal(k as nat);
    let e1: int = 6int + dh.len();
    let e2: int = e1 + 7 + dc.len();
    let e3: int = e2 + 14 + dk.len();
    let suffix = if v {
        verified_suffix()
    } else {
        unverified_suffix()
    };
    assert(s.subrange(0, 6) =~= round_prefix());
    assert(s.subrange(6, e1) =~= dh);
    assert(s.subrange(e1, e1 + 7) =~= chunk_infix());
    assert(s.subrange(e1 + 7, e2) =~= dc);
    assert(s.subrange(e2, e2 + 14) =~= contribution_infix());
    assert(s.subrange(e2 + 14, e3) =~= dk);
    assert(s.subrange(e3, s.len() as int) =~= suffix);
    assert(s[e1] == '/');
    assert(s[e2] == '/');
    assert(s[e3] == '.');
}

/// The characters of a text.
fn chars_of(s: &str) -> (r: Vec<char>)
    ensures
        r@ == s@,
{
    let n = s.unicode_len();
    let mut r: Vec<char> = Vec::new();
    let mut i: usize = 0;
    while i < n
        invariant
            n == s@.len(),
            i <= n,
            r@ == s@.subrange(0, i as int),
        decreases n - i,
    {
        r.push(s.get_char(i));
        i = i + 1;
        assert(r@ =~= s@.subrange(0, i as int));
    }
    assert(s@.subrange(0, n as int) =~= s@);
    r
}

/// Whether `lit` stands in `cs` at `pos`.
fn literal_at(cs: &Vec<char>, pos: usize, lit: &Vec<char>) -> (r: bool)
    requires
        pos <= cs@.len(),
    ensures
        r == (pos + lit@.len() <= cs@.len() && cs@.subrange(pos as int, pos + lit@.len()) == lit@),
{
    if lit.len() > cs.len() - pos {
        return false;
    }
    let mut i: usize = 0;
    while i < lit.len()
        invariant
            pos + lit@.len() <= cs@.len(),
            pos + lit.len() <= cs.len(),
            i <= lit@.len(),
            forall|j: int| 0 <= j < i ==> cs@[pos + j] == lit@[j],
        decreases lit.len() - i,
    {
        assert(pos + i < cs@.len());
        if cs[pos + i] != lit[i] {
            assert(cs@.subrange(pos as int, pos + lit@.len())[i as int] != lit@[i as int]);
            return false;
        }
        i = i + 1;
    }
    assert(cs@.subrange(pos as int, pos + lit@.len()) =~= lit@);
    true
}

/// Reads the decimal notation of a `u64` at `pos`, up to the next non-digit.
fn read_decimal(cs: &Vec<char>, pos: usize) -> (r: Option<(u64, usize)>)
    requires
        pos <= cs@.len(),
    ensures
        r matches Some((v, end)) ==> digit_run_ends_at(cs@, pos as int, end as int)
            && cs@.subrange(pos as int, end as int) == decimal(v as nat),
        r is None ==> forall|v: u64, end: int|
            #![trigger digit_run_ends_at(cs@, pos as int, end), decimal(v as nat)]
            !(digit_run_ends_at(cs@, pos as int, end) && cs@.subrange(pos as int, end)
                == decimal(v as nat)),
{
    let mut end = pos;
    while end < cs.len() && digit_of(cs[end]).is_some()
        invariant
            pos <= end <= cs@.len(),
            all_digits(cs@.subrange(pos as int, end as int)),
        decreases cs.len() - end,
    {
        end = end + 1;
        assert(all_digits(cs@.subrange(pos as int, end as int))) by {
            assert forall|i: int| 0 <= i < end - pos implies is_digit(
                #[trigger] cs@.subrange(pos as int, end as int)[i],
            ) by {
                if i < end - 1 - pos {
                    assert(cs@.subrange(pos as int, end as int)[i] == cs@.subrange(
                        pos as int,
                        end - 1,
                    )[i]);
                }
            }
        }
    }
    let ghost run = cs@.subrange(pos as int, end as int);
    assert(digit_run_ends_at(cs@, pos as int, end as int));
    proof {
        assert forall|v: u64, e: int|
            #![trigger digit_run_ends_at(cs@, pos as int, e), decimal(v as nat)]
            digit_run_ends_at(cs@, pos as int, e) && cs@.subrange(pos as int, e)
                == decimal(v as nat) implies e == end && run == decimal(v as nat) by {
            lemma_digit_run_unique(cs@, pos as int, e, end as int);
        }
    }
    if end == pos {
        proof {
            assert forall|v: u64, e: int|
                #![trigger digit_run_ends_at(cs@, pos as int, e), decimal(v as nat)]
                !(digit_run_ends_at(cs@, pos as int, e) && cs@.subrange(pos as int, e)
                    == decimal(v as nat)) by {
                lemma_decimal(v as nat);
            }
        }
        return None;
    }
    if end - pos > 1 && cs[pos] == '0' {
        proof {
            assert forall|v: u64, e: int|
                #![trigger digit_run_ends_at(cs@, pos as int, e), decimal(v as nat)]
                !(digit_run_ends_at(cs@, pos as int, e) && cs@.subrange(pos as int, e)
                    == decimal(v as nat)) by {
                lemma_decimal(v as nat);
                if digit_run_ends_at(cs@, pos as int, e) && cs@.subrange(pos as int, e) == decimal(
                    v as nat,
                ) {
                    assert(run[0] == cs@[pos as int]);
                }
            }
        }
        return None;
    }
    if end - pos > 20 {
        proof {
            assert forall|v: u64, e: int|
                #![trigger digit_run_ends_at(cs@, pos as int, e), decimal(v as nat)]
                !(digit_run_ends_at(cs@, pos as int, e) && cs@.subrange(pos as int, e)
                    == decimal(v as nat)) by {
                lemma_decimal_len_u64(v);
            }
        }
        return None;
    }
    let mut value: u128 = 0;
    let mut i = pos;
    proof {
        lemma_pow10_20();
        lemma_pow10_monotone((end - pos) as nat, 20);
    }
    while i < end
        invariant
            pos <= i <= end <= cs@.len(),
            end - pos <= 20,
            run == cs@.subrange(pos as int, end as int),
            all_digits(run),
            pow10(20) == 100000000000000000000nat,
            value == digits_value(cs@.subrange(pos as int, i as int)),
        decreases end - i,
    {
        let ghost prefix = cs@.subrange(pos as int, i as int);
        let ghost next = cs@.subrange(pos as int, i + 1);
        assert(next.drop_last() =~= prefix);
        assert(is_digit(run[i - pos]));
        assert(next.last() == cs@[i as int]);
        assert(all_digits(next)) by {
            assert forall|j: int| 0 <= j < next.len() implies is_digit(#[trigger] next[j]) by {
                assert(next[j] == run[j]);
            }
        }
        proof {
            lemma_digits_value_bound(next);
            lemma_pow10_monotone(next.len() as nat, 20);
            lemma_digits_value_bound(prefix);
            assert(all_digits(prefix)) by {
                assert forall|j: int| 0 <= j < prefix.len() implies is_digit(#[trigger] prefix[j]) by {
                    assert(prefix[j] == run[j]);
                }
            }
        }
        let d = match digit_of(cs[i]) {
            Some(d) => d as u128,
            None => 0,
        };
        value = value * 10 + d;
        i = i + 1;
    }
    if value > u64::MAX as u128 {
        proof {
            assert forall|v: u64, e: int|
                #![trigger digit_run_ends_at(cs@, pos as int, e), decimal(v as nat)]
                !(digit_run_ends_at(cs@, pos as int, e) && cs@.subrange(pos as int, e)
                    == decimal(v as nat)) by {
                lemma_decimal(v as nat);
            }
        }
        return None;
    }
    proof {
        lemma_canonical_digits(run);
    }
    Some((value as u64, end))
}

fn push_digit(s: String, d: u64) -> (r: String)
    requires
        d < 10,
    ensures
        r@ == s@.push(digit_char(d as int)),
{
    proof {
        reveal_strlit("0");
        reveal_strlit("1");
        reveal_strlit("2");
        reveal_strlit("3");
        reveal_strlit("4");
        reveal_strlit("5");
        reveal_strlit("6");
        reveal_strlit("7");
        reveal_strlit("8");
        reveal_strlit("9");
    }
    let r = match d {
        0 => s.concat("0"),
        1 => s.concat("1"),
        2 => s.concat("2"),
        3 => s.concat("3"),
        4 => s.concat("4"),
        5 => s.concat("5"),
        6 => s.concat("6"),
        7 => s.concat("7"),
        8 => s.concat("8"),
        _ => s.concat("9"),
    };
    assert(r@ =~= s@.push(digit_char(d as int)));
    r
}

fn push_decimal(s: String, v: u64) -> (r: String)
    ensures
        r@ == s@ + decimal(v as nat),
    decreases v,
{
    if v < 10 {
        let r = push_digit(s, v);
        assert(r@ =~= s@ + decimal(v as nat));
        r
    } else {
        let t = push_decimal(s, v / 10);
        let r = push_digit(t, v % 10);
        assert(r@ =~= s@ + decimal(v as nat));
        r
    }
}

/// The locator of the file that holds contribution `contribution` to chunk `chunk` in round
/// `height`, in its verified or unverified form.
pub fn contribution_locator(height: u64, chunk: u64, contribution: u64, verified: bool) -> (r:
    String)
    ensures
        r@ == locator_text(height, chunk, contribution, verified),
{
    let r = push_decimal(String::from_str("round_"), height);
    let r = push_decimal(r.concat("/chunk_"), chunk);
    let r = push_decimal(r.concat("/contribution_"), contribution);
    let r = if verified {
        r.concat(".verified")
    } else {
        r.concat(".unverified")
    };
    assert(r@ =~= locator_text(height, chunk, contribution, verified));
    r
}

proof fn lemma_same_number(a: u64, b: u64)
    requires
        decimal(a as nat) == decimal(b as nat),
    ensures
        a == b,
{
    lemma_decimal(a as nat);
    lemma_decimal(b as nat);
}

/// Reads a contribution file locator back into its round height, chunk id, contribution id
/// and whether it names the verified form.
#[verifier::spinoff_prover]
#[verifier::rlimit(60)]
pub fn parse_locator(locator: &str) -> (r: Result<(u64, u64, u64, bool), CoordinatorError>)
    ensures
        r matches Ok((h, c, k, v)) ==> locator@ == locator_text(h, c, k, v),
        r is Err ==> r == Err::<(u64, u64, u64, bool), _>(CoordinatorError::LocatorInvalid)
            && forall|h: u64, c: u64, k: u64, v: bool| locator@ != locator_text(h, c, k, v),
{
    let cs = chars_of(locator);
    let prefix = chars_of("round_");
    let chunk = chars_of("/chunk_");
    let contribution = chars_of("/contribution_");
    let verified = chars_of(".verified");
    let unverified = chars_of(".unverified");
    proof {
        lemma_literals();
    }
    let ghost s = cs@;
    if !literal_at(&cs, 0, &prefix) {
        proof {
            assert forall|h0: u64, c0: u64, k0: u64, v0: bool|
                s != #[trigger] locator_text(h0, c0, k0, v0) by {
                lemma_text_structure(h0, c0, k0, v0);
            }
        }
        return Err(CoordinatorError::LocatorInvalid);
    }
    let p1 = prefix.len();
    let (h, e1) = match read_decimal(&cs, p1) {
        Some(x) => x,
        None => {
            proof {
                assert forall|h0: u64, c0: u64, k0: u64, v0: bool|
                    s != #[trigger] locator_text(h0, c0, k0, v0) by {
                    lemma_text_structure(h0, c0, k0, v0);
                    if s == locator_text(h0, c0, k0, v0) {
                        assert(digit_run_ends_at(s, 6, 6int + decimal(h0 as nat).len()));
                    }
                }
            }
            return Err(CoordinatorError::LocatorInvalid);
        },
    };
    // Any locator text equal to `s` has `h` as its height.
    proof {
        assert forall|h0: u64, c0: u64, k0: u64, v0: bool|
            s == #[trigger] locator_text(h0, c0, k0, v0) implies h0 == h && e1 == 6int + decimal(
                h0 as nat,
            ).len() by {
            lemma_text_structure(h0, c0, k0, v0);
            lemma_digit_run_unique(s, 6, e1 as int, 6int + decimal(h0 as nat).len());
            lemma_same_number(h, h0);
        }
    }
    if !literal_at(&cs, e1, &chunk) {
        proof {
            assert forall|h0: u64, c0: u64, k0: u64, v0: bool|
                s != #[trigger] locator_text(h0, c0, k0, v0) by {
                lemma_text_structure(h0, c0, k0, v0);
            }
        }
        return Err(CoordinatorError::LocatorInvalid);
    }
    assert(e1 + chunk@.len() <= cs.len());
    let p2 = e1 + chunk.len();
    let (c, e2) = match read_decimal(&cs, p2) {
        Some(x) => x,
        None => {
            proof {
                assert forall|h0: u64, c0: u64, k0: u64, v0: bool|
                    s != #[trigger] locator_text(h0, c0, k0, v0) by {
                    lemma_text_structure(h0, c0, k0, v0);
                    if s == locator_text(h0, c0, k0, v0) {
                        assert(digit_run_ends_at(s, p2 as int, p2 + decimal(c0 as nat).len()));
                    }
                }
            }
            return Err(CoordinatorError::LocatorInvalid);
        },
    };
    proof {
        assert forall|h0: u64, c0: u64, k0: u64, v0: bool|
            s == #[trigger] locator_text(h0, c0, k0, v0) implies c0 == c && e2 == p2
            + decimal(c0 as nat).len() by {
            lemma_text_structure(h0, c0, k0, v0);
            lemma_digit_run_unique(s, p2 as int, e2 as int, p2 + decimal(c0 as nat).len());
            lemma_same_number(c, c0);
        }
    }
    if !literal_at(&cs, e2, &contribution) {
        proof {
            assert forall|h0: u64, c0: u64, k0: u64, v0: bool|
                s != #[trigger] locator_text(h0, c0, k0, v0) by {
                lemma_text_structure(h0, c0, k0, v0);
            }
        }
        return Err(CoordinatorError::LocatorInvalid);
    }
    assert(e2 + contribution@.len() <= cs.len());
    let p3 = e2 + contribution.len();
    let (k, e3) = match read_decimal(&cs, p3) {
        Some(x) => x,
        None => {
            proof {
                assert forall|h0: u64, c0: u64, k0: u64, v0: bool|
                    s != #[trigger] locator_text(h0, c0, k0, v0) by {
                    lemma_text_structure(h0, c0, k0, v0);
                    if s == locator_text(h0, c0, k0, v0) {
                        assert(digit_run_ends_at(s, p3 as int, p3 + decimal(k0 as nat).len()));
                    }
                }
            }
            return Err(CoordinatorError::LocatorInvalid);
        },
    };
    proof {
        assert forall|h0: u64, c0: u64, k0: u64, v0: bool|
            s == #[trigger] locator_text(h0, c0, k0, v0) implies k0 == k && e3 == p3
            + decimal(k0 as nat).len() by {
            lemma_text_structure(h0, c0, k0, v0);
            lemma_digit_run_unique(s, p3 as int, e3 as int, p3 + decimal(k0 as nat).len());
            lemma_same_number(k, k0);
        }
    }
    let v = if literal_at(&cs, e3, &verified) && e3 + verified.len() == cs.len() {
        true
    } else if literal_at(&cs, e3, &unverified) && e3 + unverified.len() == cs.len() {
        false
    } else {
        proof {
            assert forall|h0: u64, c0: u64, k0: u64, v0: bool|
                s != #[trigger] locator_text(h0, c0, k0, v0) by {
                lemma_text_structure(h0, c0, k0, v0);
                if s == locator_text(h0, c0, k0, v0) {
                    if v0 {
                        assert(s.subrange(e3 as int, e3 + verified@.len()) =~= s.subrange(
                            e3 as int,
                            s.len() as int,
                        ));
                    } else {
                        assert(s.subrange(e3 as int, e3 + unverified@.len()) =~= s.subrange(
                            e3 as int,
                            s.len() as int,
                        ));
                    }
                }
            }
        }
        return Err(CoordinatorError::LocatorInvalid);
    };
    assert(s =~= locator_text(h, c, k, v));
    Ok((h, c, k, v))
}

/// Reading a locator back gives the round height, chunk id, contribution id and form it was
/// made from.
pub proof fn lemma_locator_round_trip(height: u64, chunk: u64, contribution: u64, verified: bool)
    ensures
        forall|h: u64, c: u64, k: u64, v: bool|
            locator_text(height, chunk, contribution, verified) == #[trigger] locator_text(h, c, k, v)
                ==> h == height && c == chunk && k == contribution && v == verified,
{
    assert forall|h: u64, c: u64, k: u64, v: bool|
        locator_text(height, chunk, contribution, verified) == #[trigger] locator_text(
            h,
            c,
            k,
            v,
        ) implies h == height && c == chunk && k == contribution && v == verified by {
        let s = locator_text(h, c, k, v);
        lemma_text_structure(h, c, k, v);
        lemma_text_structure(height, chunk, contribution, verified);
        lemma_literals();
        lemma_digit_run_unique(s, 6, 6int + decimal(h as nat).len(), 6int + decimal(height as nat).len());
        lemma_same_number(h, height);
        let p2: int = 6int + decimal(h as nat).len() + 7;
        lemma_digit_run_unique(s, p2, p2 + decimal(c as nat).len(), p2 + decimal(chunk as nat).len());
        lemma_same_number(c, chunk);
        let p3: int = p2 + decimal(c as nat).len() + 14;
        lemma_digit_run_unique(s, p3, p3 + decimal(k as nat).len(), p3 + decimal(contribution as nat).len());
        lemma_same_number(k, contribution);
        let e3: int = p3 + decimal(k as nat).len();
        if v != verified {
            assert(s[e3 + 1] == (if v { 'v' } else { 'u' }));
        }
    }
}

} // verus!
