use vstd::prelude::*;
use vstd::string::StrSliceExecFns;
use vstd::string::StringExecFns;

verus! {

/// Is `c` a decimal digit?
pub open spec fn is_digit(c: char) -> bool {
    48 <= c as u32 <= 57
}

/// The numeric value of a digit character.
pub open spec fn digit_val(c: char) -> int {
    c as u32 - 48
}

/// Every character of `s` is a decimal digit.
pub open spec fn all_digits(s: Seq<char>) -> bool {
    forall|i: int| 0 <= i < s.len() ==> is_digit(#[trigger] s[i])
}

/// The number a digit string denotes, most significant digit first.
pub open spec fn spec_dec_val(s: Seq<char>) -> int
    decreases s.len(),
{
    if s.len() == 0 {
        0
    } else {
        spec_dec_val(s.drop_last()) * 10 + digit_val(s.last())
    }
}

/// The digit character for one value below ten.
pub open spec fn spec_digit(d: int) -> char {
    if d == 0 {
        '0'
    } else if d == 1 {
        '1'
    } else if d == 2 {
        '2'
    } else if d == 3 {
        '3'
    } else if d == 4 {
        '4'
    } else if d == 5 {
        '5'
    } else if d == 6 {
        '6'
    } else if d == 7 {
        '7'
    } else if d == 8 {
        '8'
    } else {
        '9'
    }
}

/// The decimal digits of `n`, without leading zeros (a lone zero for 0).
pub open spec fn spec_dec(n: nat) -> Seq<char>
    decreases n,
{
    if n < 10 {
        seq![spec_digit(n as int)]
    } else {
        spec_dec(n / 10).push(spec_digit((n % 10) as int))
    }
}

/// A digit string denotes a nonnegative number.
pub proof fn lemma_dec_val_nonneg(s: Seq<char>)
    requires
        all_digits(s),
    ensures
        spec_dec_val(s) >= 0,
    decreases s.len(),
{
    if s.len() > 0 {
        assert(all_digits(s.drop_last()));
        lemma_dec_val_nonneg(s.drop_last());
    }
}

/// Extending a digit string can only increase its value.
pub proof fn lemma_dec_val_mono(s: Seq<char>, i: int)
    requires
        all_digits(s),
        0 <= i <= s.len(),
    ensures
        spec_dec_val(s.take(i)) <= spec_dec_val(s),
    decreases s.len(),
{
    lemma_dec_val_nonneg(s);
    if i == s.len() {
        assert(s.take(i) =~= s);
    } else {
        assert(all_digits(s.drop_last()));
        assert(s.take(i) =~= s.drop_last().take(i));
        lemma_dec_val_mono(s.drop_last(), i);
        lemma_dec_val_nonneg(s.drop_last());
    }
}

/// Append the decimal digits of `n` to `s`.
fn push_dec(s: &mut String, n: u64)
    ensures
        final(s)@ == old(s)@ + spec_dec(n as nat),
    decreases n,
{
    if n >= 10 {
        push_dec(s, n / 10);
    }
    let d = n % 10;
    let ds: &str = if d == 0 {
        "0"
    } else if d == 1 {
        "1"
    } else if d == 2 {
        "2"
    } else if d == 3 {
        "3"
    } else if d == 4 {
        "4"
    } else if d == 5 {
        "5"
    } else if d == 6 {
        "6"
    } else if d == 7 {
        "7"
    } else if d == 8 {
        "8"
    } else {
        "9"
    };
    proof {
        reveal_strlit("0");
        reveal_strlit("1");
        reveal_strlit("2");
        reveal_strlit("3");
        reveal_strlit("4");
        reveal_strlit("5");
        reveal_strlit("6");
        reveal_strlit("7");
        reveal_strlit("8");
        reveal_strlit("9");
        assert(ds@ =~= seq![spec_digit(n as int % 10)]);
    }
    s.append(ds);
    proof {
        if n < 10 {
            assert(spec_dec(n as nat) =~= seq![spec_digit(n as int)]);
        } else {
            assert(spec_dec(n as nat) =~= spec_dec(n as nat / 10).push(
                spec_digit(n as int % 10),
            ));
            assert(final(s)@ =~= old(s)@ + spec_dec(n as nat));
        }
    }
}

/// The file name of the segment with generation `gen` inside directory
/// `dir`: `dir/<gen>.log`.
pub fn log_path(dir: &str, gen: u64) -> (r: String)
    ensures
        r@ == dir@ + seq!['/'] + spec_dec(gen as nat) + ".log"@,
{
    let mut s = dir.to_owned();
    s.append("/");
    push_dec(&mut s, gen);
    s.append(".log");
    proof {
        reveal_strlit("/");
        assert(s@ =~= dir@ + seq!['/'] + spec_dec(gen as nat) + ".log"@);
    }
    s
}

/// The generation a file name denotes: `Some(g)` exactly when the name is
/// one or more decimal digits followed by `.log` and the digits denote a
/// number that fits in 64 bits.  Any other name is not a segment.
pub open spec fn spec_file_gen(name: Seq<char>) -> Option<u64> {
    let l = name.len() as int;
    let stem = name.subrange(0, l - 4);
    if l >= 5 && name[l - 4] == '.' && name[l - 3] == 'l' && name[l - 2] == 'o' && name[l - 1]
        == 'g' && all_digits(stem) && spec_dec_val(stem) <= u64::MAX {
        Some(spec_dec_val(stem) as u64)
    } else {
        None
    }
}

/// Decide whether `name` names a log segment, and for which generation.
pub fn parse_file_gen(name: &str) -> (r: Option<u64>)
    ensures
        r == spec_file_gen(name@),
{
    let l = name.unicode_len();
    if l < 5 {
        return None;
    }
    if !(name.get_char(l - 4) == '.' && name.get_char(l - 3) == 'l' && name.get_char(l - 2)
        == 'o' && name.get_char(l - 1) == 'g') {
        return None;
    }
    let ghost stem = name@.subrange(0, l as int - 4);
    let mut acc: u64 = 0;
    let mut i: usize = 0;
    while i < l - 4
        invariant
            l == name@.len(),
            l >= 5,
            i <= l - 4,
            stem == name@.subrange(0, l as int - 4),
            all_digits(stem.take(i as int)),
            acc == spec_dec_val(stem.take(i as int)),
        decreases l - 4 - i,
    {
        let c = name.get_char(i);
        let u = c as u32;
        if u < 48 || u > 57 {
            assert(!is_digit(stem[i as int]));
            return None;
        }
        let d = (u - 48) as u64;
        proof {
            assert(stem.take(i as int + 1).drop_last() =~= stem.take(i as int));
            assert(stem.take(i as int + 1).last() == stem[i as int]);
        }
        if acc > (u64::MAX - d) / 10 {
            proof {
                let q = (u64::MAX - d) / 10;
                assert(u64::MAX - d <= 10 * q + 9);
                assert(acc * 10 >= (q + 1) * 10) by (nonlinear_arith)
                    requires
                        acc >= q + 1,
                ;
                assert(acc * 10 + d > u64::MAX);
                assert(spec_dec_val(stem.take(i as int + 1)) > u64::MAX);
                if all_digits(stem) && spec_dec_val(stem) <= u64::MAX {
                    lemma_dec_val_mono(stem, i as int + 1);
                }
            }
            return None;
        }
        proof {
            assert(acc * 10 <= (u64::MAX - d) / 10 * 10) by (nonlinear_arith)
                requires
                    acc <= (u64::MAX - d) / 10,
            ;
        }
        acc = acc * 10 + d;
        i = i + 1;
    }
    proof {
        assert(stem.take(l as int - 4) =~= stem);
        assert(name@[l as int - 4] == '.');
    }
    Some(acc)
}

/// `spec_digit` writes the digit it was given.
pub proof fn lemma_digit_val(d: int)
    requires
        0 <= d < 10,
    ensures
        is_digit(spec_digit(d)),
        digit_val(spec_digit(d)) == d,
{
    assert('0' as u32 == 48);
    assert('1' as u32 == 49);
    assert('2' as u32 == 50);
    assert('3' as u32 == 51);
    assert('4' as u32 == 52);
    assert('5' as u32 == 53);
    assert('6' as u32 == 54);
    assert('7' as u32 == 55);
    assert('8' as u32 == 56);
    assert('9' as u32 == 57);
}

/// Every character `spec_dec` produces is a digit, and there is at least
/// one of them.
pub proof fn lemma_dec_all_digits(n: nat)
    ensures
        all_digits(spec_dec(n)),
        spec_dec(n).len() >= 1,
    decreases n,
{
    if n < 10 {
        lemma_digit_val(n as int);
    } else {
        lemma_dec_all_digits(n / 10);
        lemma_digit_val((n % 10) as int);
        let s = spec_dec(n / 10);
        let d = spec_digit((n % 10) as int);
        assert forall|i: int| 0 <= i < s.push(d).len() implies is_digit(#[trigger] s.push(d)[i]) by {
            if i < s.len() {
                assert(s.push(d)[i] == s[i]);
            }
        }
    }
}

/// Reading the digits `spec_dec` wrote yields the number back.
pub proof fn lemma_dec_val_of_dec(n: nat)
    ensures
        spec_dec_val(spec_dec(n)) == n,
    decreases n,
{
    if n < 10 {
        lemma_digit_val(n as int);
        let s1 = seq![spec_digit(n as int)];
        assert(spec_dec(n) == s1);
        assert(s1.drop_last() =~= Seq::<char>::empty());
        assert(spec_dec_val(s1.drop_last()) == 0);
        assert(s1.last() == spec_digit(n as int));
        assert(spec_dec_val(s1) == digit_val(spec_digit(n as int)));
    } else {
        lemma_dec_val_of_dec(n / 10);
        lemma_digit_val((n % 10) as int);
        let s = spec_dec(n / 10);
        let d = spec_digit((n % 10) as int);
        let s2 = s.push(d);
        assert(spec_dec(n) == s2);
        assert(s2.drop_last() =~= s);
        assert(spec_dec_val(s2.drop_last()) == spec_dec_val(s));
        assert(s2.last() == d);
        assert(spec_dec_val(s2) == spec_dec_val(s) * 10 + digit_val(d));
        assert(spec_dec_val(s2) == (n / 10) * 10 + (n % 10));
    }
}

/// The names the store writes are the names the scanner finds: the file
/// name `log_path` gives a generation parses back to exactly that
/// generation.  This is what lets a store that was mirrored to a directory
/// be found again by `sorted_generation_list` on reopen.
pub proof fn lemma_log_name_round_trip(g: u64)
    ensures
        spec_file_gen(spec_dec(g as nat) + ".log"@) == Some(g),
{
    reveal_strlit(".log");
    lemma_dec_all_digits(g as nat);
    lemma_dec_val_of_dec(g as nat);
    let digits = spec_dec(g as nat);
    let name = digits + ".log"@;
    let l = name.len() as int;
    assert(name.subrange(0, l - 4) =~= digits);
    assert(name[l - 4] == '.');
    assert(name[l - 3] == 'l');
    assert(name[l - 2] == 'o');
    assert(name[l - 1] == 'g');
}

/// Do the generations strictly increase along `v`?
pub open spec fn strictly_sorted(v: Seq<u64>) -> bool {
    forall|i: int, j: int| 0 <= i < j < v.len() ==> v[i] < v[j]
}

/// Insert `g` into a strictly sorted list, keeping it sorted and
/// duplicate-free.
fn insert_sorted(v: &mut Vec<u64>, g: u64)
    requires
        strictly_sorted(old(v)@),
    ensures
        strictly_sorted(final(v)@),
        forall|x: u64| final(v)@.contains(x) <==> (old(v)@.contains(x) || x == g),
{
    let n = v.len();
    let mut i: usize = 0;
    while i < n && v[i] < g
        invariant
            n == v@.len(),
            i <= n,
            strictly_sorted(v@),
            forall|j: int| 0 <= j < i ==> v@[j] < g,
        decreases n - i,
    {
        i = i + 1;
    }
    if i < n && v[i] == g {
        proof {
            assert(v@[i as int] == g);
            assert(v@.contains(g));
        }
        return ;
    }
    proof {
        assert(i < v@.len() ==> v@[i as int] > g);
    }
    let ghost oldv = v@;
    v.insert(i, g);
    proof {
        assert(v@.len() == oldv.len() + 1);
        assert(forall|j: int| 0 <= j < i ==> v@[j] == oldv[j]);
        assert(v@[i as int] == g);
        assert(forall|j: int| i < j < v@.len() ==> v@[j] == oldv[j - 1]);
        assert forall|a: int, b: int| 0 <= a < b < v@.len() implies v@[a] < v@[b] by {
            if a < i && b == i {
            } else if a == i && b > i {
                assert(v@[b] == oldv[b - 1]);
                assert(oldv[b - 1] >= oldv[i as int]);
            } else if a < i && b > i {
                assert(v@[a] == oldv[a] && v@[b] == oldv[b - 1]);
            }
        }
        assert forall|x: u64| v@.contains(x) <==> (oldv.contains(x) || x == g) by {
            if v@.contains(x) {
                let w = choose|w: int| 0 <= w < v@.len() && v@[w] == x;
                if w < i {
                    assert(oldv[w] == x);
                } else if w > i {
                    assert(oldv[w - 1] == x);
                }
            }
            if oldv.contains(x) {
                let w = choose|w: int| 0 <= w < oldv.len() && oldv[w] == x;
                if w < i {
                    assert(v@[w] == x);
                } else {
                    assert(v@[w + 1] == x);
                }
            }
            if x == g {
                assert(v@[i as int] == x);
            }
        }
    }
}

/// The generations of the segment files among `names`, each once, in
/// ascending order.  Names that are not `<digits>.log` are ignored.
pub fn sorted_generation_list(names: &Vec<String>) -> (r: Vec<u64>)
    ensures
        strictly_sorted(r@),
        forall|g: u64| #[trigger]
            r@.contains(g) <==> exists|i: int|
                0 <= i < names@.len() && spec_file_gen(names@[i]@) == Some(g),
{
    let mut r: Vec<u64> = Vec::new();
    let n = names.len();
    let mut i: usize = 0;
    while i < n
        invariant
            n == names@.len(),
            i <= n,
            strictly_sorted(r@),
            forall|g: u64| #[trigger]
                r@.contains(g) <==> exists|j: int|
                    0 <= j < i && spec_file_gen(names@[j]@) == Some(g),
        decreases n - i,
    {
        let ghost oldr = r@;
        match parse_file_gen(names[i].as_str()) {
            Some(g) => {
                insert_sorted(&mut r, g);
                proof {
                    assert forall|x: u64| #[trigger] r@.contains(x) implies exists|j: int|
                        0 <= j < i + 1 && spec_file_gen(names@[j]@) == Some(x) by {
                        if x == g {
                            assert(spec_file_gen(names@[i as int]@) == Some(x));
                        } else {
                            assert(oldr.contains(x));
                            let j = choose|j: int|
                                0 <= j < i && spec_file_gen(names@[j]@) == Some(x);
                            assert(spec_file_gen(names@[j]@) == Some(x));
                        }
                    }
                    assert forall|x: u64|
                        (exists|j: int| 0 <= j < i + 1 && spec_file_gen(names@[j]@) == Some(
                            x,
                        )) implies #[trigger] r@.contains(x) by {
                        let j = choose|j: int|
                            0 <= j < i + 1 && spec_file_gen(names@[j]@) == Some(x);
                        if j < i {
                            assert(oldr.contains(x));
                        }
                    }
                }
            },
            None => {
                proof {
                    assert forall|x: u64| #[trigger] r@.contains(x) implies exists|j: int|
                        0 <= j < i + 1 && spec_file_gen(names@[j]@) == Some(x) by {
                        let j = choose|j: int|
                            0 <= j < i && spec_file_gen(names@[j]@) == Some(x);
                        assert(spec_file_gen(names@[j]@) == Some(x));
                    }
                    assert forall|x: u64|
                        (exists|j: int| 0 <= j < i + 1 && spec_file_gen(names@[j]@) == Some(
                            x,
                        )) implies #[trigger] r@.contains(x) by {
                        let j = choose|j: int|
                            0 <= j < i + 1 && spec_file_gen(names@[j]@) == Some(x);
                        assert(j < i);
                    }
                }
            },
        }
        i = i + 1;
    }
    r
}

} // verus!
